//! The snapshot file of Equilibrium: peaks, correlation, spectra and band levels.

use crate::snapshot::{join_with, joined_with};
use crate::text::strings;
use vstd::prelude::*;
use vstd::string::*;

verus! {

/// A row of a spectrum table: the frequency and the level as they are written.
pub struct SpectrumRow {
    pub freq: String,
    pub level: String,
}

/// The line of a row of a spectrum table.
pub open spec fn spectrum_line(row: SpectrumRow) -> Seq<char> {
    "| "@ + row.freq@ + " | "@ + row.level@ + " |"@
}

/// The lines of a spectrum table.
pub open spec fn spectrum_lines(rows: Seq<SpectrumRow>) -> Seq<Seq<char>> {
    Seq::new(rows.len(), |i: int| spectrum_line(rows[i]))
}

/// The rows of a spectrum table.
pub open spec fn spectrum_table(rows: Seq<SpectrumRow>) -> Seq<char> {
    joined_with(spectrum_lines(rows), "\n"@)
}

fn write_spectrum_table(rows: &Vec<SpectrumRow>) -> (r: String)
    ensures
        r@ == spectrum_table(rows@),
{
    let mut ls: Vec<String> = Vec::new();
    let mut i: usize = 0;
    while i < rows.len()
        invariant
            i <= rows.len(),
            ls.len() == i,
            forall|k: int| 0 <= k < i ==> (#[trigger] ls@[k])@ == spectrum_line(rows@[k]),
        decreases rows.len() - i,
    {
        let mut s: String = "| ".to_owned();
        s.append(rows[i].freq.as_str());
        s.append(" | ");
        s.append(rows[i].level.as_str());
        s.append(" |");
        ls.push(s);
        i += 1;
    }
    assert(strings(ls@) == spectrum_lines(rows@));
    join_with(&ls, "\n")
}

/// What is measured for a snapshot of Equilibrium, as it is written.
pub struct EquilibriumSnapshot {
    pub stereo: Vec<SpectrumRow>,
    pub mono: Vec<SpectrumRow>,
    pub delta: Vec<SpectrumRow>,
    pub band_levels: Vec<String>,
    pub correlation: String,
    pub peak_l: String,
    pub peak_r: String,
}

/// The snapshot file of Equilibrium.
pub open spec fn snapshot_text(s: EquilibriumSnapshot) -> Seq<char> {
    "---\nplugin: equilibrium\ntype: snapshot\n---\n\n# Equilibrium Snapshot\n\n## Signal\n| | L | R |\n|--|--|--|\n| Peak | "@
        + s.peak_l@ + " dB | "@ + s.peak_r@ + " dB |\n| Korrelation | "@ + s.correlation@
        + " | |\n\n## Spektrum — Stereo\n| Hz | dB |\n|----|-----|\n"@ + spectrum_table(s.stereo@)
        + "\n\n## Spektrum — Mono\n| Hz | dB |\n|----|-----|\n"@ + spectrum_table(s.mono@)
        + "\n\n## Delta\n| Hz | dB |\n|----|-----|\n"@ + spectrum_table(s.delta@)
        + "\n\n## 5-Band\n| Band | Pegel |\n|------|-------|\n| Low | "@ + s.band_levels@[0]@
        + " dB |\n| Bass | "@ + s.band_levels@[1]@ + " dB |\n| Mid | "@ + s.band_levels@[2]@
        + " dB |\n| Hi-Mid | "@ + s.band_levels@[3]@ + " dB |\n| High | "@ + s.band_levels@[4]@
        + " dB |\n"@
}

/// The snapshot file of Equilibrium.
pub fn snap_markdown(s: &EquilibriumSnapshot) -> (r: String)
    requires
        s.band_levels.len() == 5,
    ensures
        r@ == snapshot_text(*s),
        r@ == "---\nplugin: equilibrium\ntype: snapshot\n---\n\n# Equilibrium Snapshot\n\n## Signal\n| | L | R |\n|--|--|--|\n| Peak | "@
        + s.peak_l@ + " dB | "@ + s.peak_r@ + " dB |\n| Korrelation | "@ + s.correlation@
        + " | |\n\n## Spektrum — Stereo\n| Hz | dB |\n|----|-----|\n"@ + joined_with(
            Seq::new(s.stereo@.len(), |i: int| "| "@ + s.stereo@[i].freq@ + " | "@ + s.stereo@[i].level@ + " |"@),
            "\n"@,
        )
        + "\n\n## Spektrum — Mono\n| Hz | dB |\n|----|-----|\n"@ + joined_with(
            Seq::new(s.mono@.len(), |i: int| "| "@ + s.mono@[i].freq@ + " | "@ + s.mono@[i].level@ + " |"@),
            "\n"@,
        )
        + "\n\n## Delta\n| Hz | dB |\n|----|-----|\n"@ + joined_with(
            Seq::new(s.delta@.len(), |i: int| "| "@ + s.delta@[i].freq@ + " | "@ + s.delta@[i].level@ + " |"@),
            "\n"@,
        )
        + "\n\n## 5-Band\n| Band | Pegel |\n|------|-------|\n| Low | "@ + s.band_levels@[0]@
        + " dB |\n| Bass | "@ + s.band_levels@[1]@ + " dB |\n| Mid | "@ + s.band_levels@[2]@
        + " dB |\n| Hi-Mid | "@ + s.band_levels@[3]@ + " dB |\n| High | "@ + s.band_levels@[4]@
        + " dB |\n"@,
{
    let mut t: String =
        "---\nplugin: equilibrium\ntype: snapshot\n---\n\n# Equilibrium Snapshot\n\n## Signal\n| | L | R |\n|--|--|--|\n| Peak | ".to_owned();
    t.append(s.peak_l.as_str());
    t.append(" dB | ");
    t.append(s.peak_r.as_str());
    t.append(" dB |\n| Korrelation | ");
    t.append(s.correlation.as_str());
    t.append(" | |\n\n## Spektrum — Stereo\n| Hz | dB |\n|----|-----|\n");
    t.append(write_spectrum_table(&s.stereo).as_str());
    t.append("\n\n## Spektrum — Mono\n| Hz | dB |\n|----|-----|\n");
    t.append(write_spectrum_table(&s.mono).as_str());
    t.append("\n\n## Delta\n| Hz | dB |\n|----|-----|\n");
    t.append(write_spectrum_table(&s.delta).as_str());
    t.append("\n\n## 5-Band\n| Band | Pegel |\n|------|-------|\n| Low | ");
    t.append(s.band_levels[0].as_str());
    t.append(" dB |\n| Bass | ");
    t.append(s.band_levels[1].as_str());
    t.append(" dB |\n| Mid | ");
    t.append(s.band_levels[2].as_str());
    t.append(" dB |\n| Hi-Mid | ");
    t.append(s.band_levels[3].as_str());
    t.append(" dB |\n| High | ");
    t.append(s.band_levels[4].as_str());
    t.append(" dB |\n");
    proof {
        lemma_spectrum_lines(s.stereo@);
        lemma_spectrum_lines(s.mono@);
        lemma_spectrum_lines(s.delta@);
    }
    t
}

/// The bin of a spectrum with `len` bins that a frequency falls into, whose bin
/// would be `bin` if there were enough.
pub fn spectrum_bin(bin: usize, len: usize) -> (r: usize)
    ensures
        r == if len == 0 {
            0
        } else if bin < len {
            bin
        } else {
            (len - 1) as usize
        },
{
    if len == 0 {
        0
    } else if bin < len {
        bin
    } else {
        len - 1
    }
}

/// The lines of a spectrum table hold the frequency and the level of each row.
proof fn lemma_spectrum_lines(rows: Seq<SpectrumRow>)
    ensures
        spectrum_lines(rows) == Seq::new(
            rows.len(),
            |i: int| "| "@ + rows[i].freq@ + " | "@ + rows[i].level@ + " |"@,
        ),
{
    assert(spectrum_lines(rows) == Seq::new(
        rows.len(),
        |i: int| "| "@ + rows[i].freq@ + " | "@ + rows[i].level@ + " |"@,
    ));
}

} // verus!
