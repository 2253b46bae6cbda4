//! The snapshot file of Lucent: resonances and masking held over a session.

use crate::snapshot::{join_with, joined_with};
use crate::text::{chars_of, strings, text_of, trim, trimmed};
use vstd::prelude::*;
use vstd::string::*;

verus! {

/// A finding: its frequency and strength as they are written, and who
/// contributes to it.
pub struct Finding {
    pub hz: String,
    pub amount: String,
    pub names: Vec<String>,
}

/// What is held for a snapshot of Lucent, as it is written.
pub struct LucentSnapshot {
    pub instance_name: String,
    pub res_own: Vec<Finding>,
    pub res_relay: Vec<Finding>,
    pub masking: Vec<Finding>,
    pub sample_rate: String,
    pub sensitivity_pct: String,
    pub mode: usize,
}

/// The name of an analysis mode in a snapshot.
pub open spec fn snapshot_mode(mode: usize) -> Seq<char> {
    if mode == 0 {
        "standalone"@
    } else if mode == 2 {
        "relay"@
    } else {
        "hybrid"@
    }
}

/// The name of an instance; one without a name is called after the plugin.
pub open spec fn instance_label(name: Seq<char>) -> Seq<char> {
    if trimmed(name).len() == 0 {
        "Lucent"@
    } else {
        trimmed(name)
    }
}

/// Whether a character makes a name need quotes.
pub open spec fn needs_quotes(c: char) -> bool {
    c == ':' || c == '#' || c == '"' || c == '\'' || c == '\n'
}

/// `s` with a backslash put before every double quote.
pub open spec fn escaped(s: Seq<char>) -> Seq<char>
    decreases s.len(),
{
    if s.len() == 0 {
        s
    } else if s.last() == '"' {
        escaped(s.drop_last()).push('\\').push('"')
    } else {
        escaped(s.drop_last()).push(s.last())
    }
}

/// A name as it stands in the frontmatter.
pub open spec fn yaml_name(s: Seq<char>) -> Seq<char> {
    if exists|i: int| 0 <= i < s.len() && needs_quotes(#[trigger] s[i]) {
        "\""@ + escaped(s) + "\""@
    } else {
        s
    }
}

fn write_yaml_name(s: &Vec<char>) -> (r: String)
    ensures
        r@ == yaml_name(s@),
{
    let mut quote: bool = false;
    let mut body: String = String::new();
    let mut i: usize = 0;
    while i < s.len()
        invariant
            i <= s.len(),
            quote == exists|k: int| 0 <= k < i && needs_quotes(#[trigger] s@[k]),
            body@ == escaped(s@.take(i as int)),
        decreases s.len() - i,
    {
        let c = s[i];
        if c == ':' || c == '#' || c == '"' || c == '\'' || c == '\n' {
            assert(needs_quotes(s@[i as int]));
            quote = true;
        }
        assert(s@.take(i + 1).drop_last() == s@.take(i as int));
        if c == '"' {
            body.push('\\');
        }
        body.push(c);
        i += 1;
    }
    assert(s@.take(i as int) == s@);
    if quote {
        let mut r: String = "\"".to_owned();
        r.append(body.as_str());
        r.append("\"");
        r
    } else {
        text_of(s)
    }
}

/// The row of a resonance of the own bus.
pub open spec fn own_line(name: Seq<char>, f: Finding) -> Seq<char> {
    "| Own ("@ + name + ") | "@ + f.hz@ + " | "@ + f.amount@ + " | |"@
}

/// The row of a resonance of the relays together.
pub open spec fn group_line(f: Finding) -> Seq<char> {
    "| Group | "@ + f.hz@ + " | "@ + f.amount@ + " | "@ + joined_with(strings(f.names@), ", "@) + " |"@
}

/// The row of a masking collision.
pub open spec fn mask_line(f: Finding) -> Seq<char> {
    "| "@ + f.hz@ + " | "@ + f.amount@ + " | "@ + joined_with(strings(f.names@), " / "@) + " |"@
}

/// The rows of the resonances: those of the own bus and then those of the relays.
pub open spec fn resonance_lines(name: Seq<char>, own: Seq<Finding>, relay: Seq<Finding>) -> Seq<
    Seq<char>,
> {
    Seq::new(own.len(), |i: int| own_line(name, own[i])) + Seq::new(
        relay.len(),
        |i: int| group_line(relay[i]),
    )
}

/// The rows of the masking collisions.
pub open spec fn mask_lines(masking: Seq<Finding>) -> Seq<Seq<char>> {
    Seq::new(masking.len(), |i: int| mask_line(masking[i]))
}

/// What a snapshot says of resonances.
pub open spec fn resonance_section(name: Seq<char>, own: Seq<Finding>, relay: Seq<Finding>) -> Seq<char> {
    if own.len() + relay.len() == 0 {
        "_No resonances detected at current sensitivity._"@
    } else {
        "| Source | Hz | Score | Contributors |\n|--------|-----|-------|--------------|\n"@
            + joined_with(resonance_lines(name, own, relay), "\n"@)
    }
}

/// What a snapshot says of masking.
pub open spec fn masking_section(mode: usize, masking: Seq<Finding>) -> Seq<char> {
    if mode == 0 {
        "_Standalone — no masking._"@
    } else if masking.len() == 0 {
        "_No masking areas detected at current sensitivity._"@
    } else {
        "| Hz | Amount (dB) | Maskers |\n|----|-------------|---------|\n"@ + joined_with(
            mask_lines(masking),
            "\n"@,
        )
    }
}

/// The snapshot file of Lucent.
pub open spec fn snapshot_text(s: LucentSnapshot) -> Seq<char> {
    let name = instance_label(s.instance_name@);
    "---\nplugin: lucent\nname: "@ + yaml_name(name) + "\ntype: snapshot\nsample_rate: "@
        + s.sample_rate@ + "\nanalyze_mode: "@ + snapshot_mode(s.mode) + "\nsensitivity_pct: "@
        + s.sensitivity_pct@ + "\n---\n\n# Lucent Snapshot — "@ + name
        + "\n\n> Resonance score = detector strength (Sensitivity-gated). Masking dB = collision level after ERB smooth + persistence gate. Lists are **session max-hold** over analysis until SNAP (not one frame, not UI top-N). `name` = instance label from the Name field (multi-Lucent).\n\n## Resonance\n"@
        + resonance_section(name, s.res_own@, s.res_relay@) + "\n\n## Masking\n"@ + masking_section(
        s.mode,
        s.masking@,
    ) + "\n"@
}

fn write_resonance_section(name: &str, own: &Vec<Finding>, relay: &Vec<Finding>) -> (r: String)
    ensures
        r@ == resonance_section(name@, own@, relay@),
{
    let mut ls: Vec<String> = Vec::new();
    let mut i: usize = 0;
    while i < own.len()
        invariant
            i <= own.len(),
            ls.len() == i,
            forall|k: int| 0 <= k < i ==> (#[trigger] ls@[k])@ == own_line(name@, own@[k]),
        decreases own.len() - i,
    {
        let mut s: String = "| Own (".to_owned();
        s.append(name);
        s.append(") | ");
        s.append(own[i].hz.as_str());
        s.append(" | ");
        s.append(own[i].amount.as_str());
        s.append(" | |");
        ls.push(s);
        i += 1;
    }
    let mut i: usize = 0;
    while i < relay.len()
        invariant
            i <= relay.len(),
            ls.len() == own.len() + i,
            forall|k: int| 0 <= k < own.len() ==> (#[trigger] ls@[k])@ == own_line(name@, own@[k]),
            forall|k: int|
                own.len() <= k < own.len() + i ==> (#[trigger] ls@[k])@ == group_line(
                    relay@[k - own.len()],
                ),
        decreases relay.len() - i,
    {
        let mut s: String = "| Group | ".to_owned();
        s.append(relay[i].hz.as_str());
        s.append(" | ");
        s.append(relay[i].amount.as_str());
        s.append(" | ");
        s.append(join_with(&relay[i].names, ", ").as_str());
        s.append(" |");
        ls.push(s);
        i += 1;
    }
    if ls.len() == 0 {
        "_No resonances detected at current sensitivity._".to_owned()
    } else {
        assert(strings(ls@) == resonance_lines(name@, own@, relay@));
        let mut r: String =
            "| Source | Hz | Score | Contributors |\n|--------|-----|-------|--------------|\n".to_owned();
        r.append(join_with(&ls, "\n").as_str());
        r
    }
}

fn write_masking_section(mode: usize, masking: &Vec<Finding>) -> (r: String)
    ensures
        r@ == masking_section(mode, masking@),
{
    if mode == 0 {
        return "_Standalone — no masking._".to_owned();
    }
    if masking.len() == 0 {
        return "_No masking areas detected at current sensitivity._".to_owned();
    }
    let mut ls: Vec<String> = Vec::new();
    let mut i: usize = 0;
    while i < masking.len()
        invariant
            i <= masking.len(),
            ls.len() == i,
            forall|k: int| 0 <= k < i ==> (#[trigger] ls@[k])@ == mask_line(masking@[k]),
        decreases masking.len() - i,
    {
        let mut s: String = "| ".to_owned();
        s.append(masking[i].hz.as_str());
        s.append(" | ");
        s.append(masking[i].amount.as_str());
        s.append(" | ");
        s.append(join_with(&masking[i].names, " / ").as_str());
        s.append(" |");
        ls.push(s);
        i += 1;
    }
    assert(strings(ls@) == mask_lines(masking@));
    let mut r: String = "| Hz | Amount (dB) | Maskers |\n|----|-------------|---------|\n".to_owned();
    r.append(join_with(&ls, "\n").as_str());
    r
}

/// The snapshot file of Lucent.
pub fn snap_markdown(s: &LucentSnapshot) -> (r: String)
    ensures
        r@ == snapshot_text(*s),
{
    let trimmed_name = trim(&chars_of(s.instance_name.as_str()));
    let name: String = if trimmed_name.len() == 0 {
        "Lucent".to_owned()
    } else {
        text_of(&trimmed_name)
    };
    let mode: &str = if s.mode == 0 {
        "standalone"
    } else if s.mode == 2 {
        "relay"
    } else {
        "hybrid"
    };
    let mut t: String = "---\nplugin: lucent\nname: ".to_owned();
    t.append(write_yaml_name(&chars_of(name.as_str())).as_str());
    t.append("\ntype: snapshot\nsample_rate: ");
    t.append(s.sample_rate.as_str());
    t.append("\nanalyze_mode: ");
    t.append(mode);
    t.append("\nsensitivity_pct: ");
    t.append(s.sensitivity_pct.as_str());
    t.append("\n---\n\n# Lucent Snapshot — ");
    t.append(name.as_str());
    t.append(
        "\n\n> Resonance score = detector strength (Sensitivity-gated). Masking dB = collision level after ERB smooth + persistence gate. Lists are **session max-hold** over analysis until SNAP (not one frame, not UI top-N). `name` = instance label from the Name field (multi-Lucent).\n\n## Resonance\n",
    );
    t.append(write_resonance_section(name.as_str(), &s.res_own, &s.res_relay).as_str());
    t.append("\n\n## Masking\n");
    t.append(write_masking_section(s.mode, &s.masking).as_str());
    t.append("\n");
    t
}

/// A backslash is put before every double quote, and nothing else is changed,
/// whatever stands before or after.
pub proof fn law_quotes_are_escaped(a: Seq<char>, b: Seq<char>, c: char)
    ensures
        escaped(a + b) == escaped(a) + escaped(b),
        escaped(seq!['"']) == seq!['\\', '"'],
        c != '"' ==> escaped(seq![c]) == seq![c],
        escaped(Seq::<char>::empty()) == Seq::<char>::empty(),
    decreases b.len(),
{
    reveal_with_fuel(escaped, 2);
    assert(seq!['"'].drop_last() == Seq::<char>::empty());
    assert(seq![c].drop_last() == Seq::<char>::empty());
    assert(escaped(seq!['"']) == seq!['\\', '"']);
    if b.len() == 0 {
        assert(a + b == a);
        assert(escaped(a) + escaped(b) == escaped(a));
    } else {
        law_quotes_are_escaped(a, b.drop_last(), c);
        assert((a + b).drop_last() == a + b.drop_last());
        assert((a + b).last() == b.last());
        assert(escaped(a + b) == escaped(a) + escaped(b));
    }
}

/// A name stands in quotes just when it holds a colon, a hash, a quote or a line
/// feed, and else as it is.
pub proof fn law_names_are_quoted(s: Seq<char>, i: int)
    ensures
        0 <= i < s.len() && (s[i] == ':' || s[i] == '#' || s[i] == '"' || s[i] == '\'' || s[i]
            == '\n') ==> yaml_name(s) == seq!['"'] + escaped(s) + seq!['"'],
        (forall|k: int|
            0 <= k < s.len() ==> #[trigger] s[k] != ':' && s[k] != '#' && s[k] != '"' && s[k] != '\''
                && s[k] != '\n') ==> yaml_name(s) == s,
{
    reveal_strlit("\"");
    assert("\""@ == seq!['"']);
    if 0 <= i < s.len() && (s[i] == ':' || s[i] == '#' || s[i] == '"' || s[i] == '\'' || s[i]
        == '\n') {
        assert(needs_quotes(s[i]));
    }
}

/// A snapshot lists the resonances of the own bus, each with the name of the
/// instance, and then those of the relays with their contributors, or says that
/// there is none.
pub proof fn law_resonances_are_listed(name: Seq<char>, own: Seq<Finding>, relay: Seq<Finding>)
    ensures
        own.len() == 0 && relay.len() == 0 ==> resonance_section(name, own, relay)
            == "_No resonances detected at current sensitivity._"@,
        own.len() > 0 || relay.len() > 0 ==> resonance_section(name, own, relay)
            == "| Source | Hz | Score | Contributors |\n|--------|-----|-------|--------------|\n"@
            + joined_with(
            Seq::new(
                own.len() + relay.len(),
                |i: int|
                    if i < own.len() {
                        "| Own ("@ + name + ") | "@ + own[i].hz@ + " | "@ + own[i].amount@ + " | |"@
                    } else {
                        "| Group | "@ + relay[i - own.len()].hz@ + " | "@ + relay[i - own.len()].amount@
                            + " | "@ + joined_with(strings(relay[i - own.len()].names@), ", "@)
                            + " |"@
                    },
            ),
            "\n"@,
        ),
{
    assert(resonance_lines(name, own, relay) == Seq::new(
                own.len() + relay.len(),
                |i: int|
                    if i < own.len() {
                        "| Own ("@ + name + ") | "@ + own[i].hz@ + " | "@ + own[i].amount@ + " | |"@
                    } else {
                        "| Group | "@ + relay[i - own.len()].hz@ + " | "@ + relay[i - own.len()].amount@
                            + " | "@ + joined_with(strings(relay[i - own.len()].names@), ", "@)
                            + " |"@
                    },
            ));
}

/// A snapshot lists the collisions with those who collide, or says that there is
/// none; without relays there can be none.
pub proof fn law_collisions_are_listed(mode: usize, masking: Seq<Finding>)
    ensures
        mode == 0 ==> masking_section(mode, masking) == "_Standalone — no masking._"@,
        mode != 0 && masking.len() == 0 ==> masking_section(mode, masking)
            == "_No masking areas detected at current sensitivity._"@,
        mode != 0 && masking.len() > 0 ==> masking_section(mode, masking)
            == "| Hz | Amount (dB) | Maskers |\n|----|-------------|---------|\n"@ + joined_with(
            Seq::new(
                masking.len(),
                |i: int|
                    "| "@ + masking[i].hz@ + " | "@ + masking[i].amount@ + " | "@ + joined_with(
                        strings(masking[i].names@),
                        " / "@,
                    ) + " |"@,
            ),
            "\n"@,
        ),
{
    assert(mask_lines(masking) == Seq::new(
                masking.len(),
                |i: int|
                    "| "@ + masking[i].hz@ + " | "@ + masking[i].amount@ + " | "@ + joined_with(
                        strings(masking[i].names@),
                        " / "@,
                    ) + " |"@,
            ));
}

/// A snapshot names the plugin, the instance, the sample rate, the mode and the
/// sensitivity, each behind its own key, and then lists resonances and masking.
pub proof fn law_snapshot_has_its_parts(s: LucentSnapshot)
    ensures
        ({
            let name = if trimmed(s.instance_name@).len() == 0 {
                "Lucent"@
            } else {
                trimmed(s.instance_name@)
            };
            let mode = if s.mode == 0 {
                "standalone"@
            } else if s.mode == 2 {
                "relay"@
            } else {
                "hybrid"@
            };
            snapshot_text(s) == "---\nplugin: lucent\nname: "@ + yaml_name(name)
                + "\ntype: snapshot\nsample_rate: "@ + s.sample_rate@ + "\nanalyze_mode: "@ + mode
                + "\nsensitivity_pct: "@ + s.sensitivity_pct@ + "\n---\n\n# Lucent Snapshot — "@
                + name
                + "\n\n> Resonance score = detector strength (Sensitivity-gated). Masking dB = collision level after ERB smooth + persistence gate. Lists are **session max-hold** over analysis until SNAP (not one frame, not UI top-N). `name` = instance label from the Name field (multi-Lucent).\n\n## Resonance\n"@
                + resonance_section(name, s.res_own@, s.res_relay@) + "\n\n## Masking\n"@
                + masking_section(s.mode, s.masking@) + "\n"@
        }),
{
}

} // verus!
