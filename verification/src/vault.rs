//! Where presets are kept, and what a plugin remembers of it.

use crate::text::{chars_of, opt_string, trim, trimmed};
use vstd::prelude::*;
use vstd::string::*;

verus! {

/// What a plugin remembers between sessions: the vault and the preset that was
/// used last.
pub struct PluginConfig {
    pub vault_path: Option<String>,
    pub last_preset: Option<String>,
}

/// An optional string once more.
pub fn copy_opt(s: &Option<String>) -> (r: Option<String>)
    ensures
        opt_string(r) == opt_string(*s),
{
    match s {
        Some(t) => Some(t.clone()),
        None => None,
    }
}

/// The vault that is remembered once a preset has been used with the given one.
pub open spec fn remembered_vault(before: Option<Seq<char>>, given: Option<Seq<char>>) -> Option<
    Seq<char>,
> {
    match given {
        Some(p) => if trimmed(p).len() == 0 {
            None
        } else {
            Some(p)
        },
        None => before,
    }
}

/// The preset that is remembered once one has been used.
pub open spec fn remembered_preset(before: Option<Seq<char>>, used: Seq<char>) -> Option<Seq<char>> {
    if trimmed(used).len() == 0 {
        before
    } else {
        Some(used)
    }
}

/// What a plugin remembers once a preset has been used. A vault path replaces
/// the one that is remembered, by none if it is blank; without one the
/// remembered path stays. A blank name is not remembered.
pub fn config_with_preset(
    config: &PluginConfig,
    vault_path: &Option<String>,
    preset: &str,
) -> (r: PluginConfig)
    ensures
        opt_string(r.vault_path) == remembered_vault(
            opt_string(config.vault_path),
            opt_string(*vault_path),
        ),
        opt_string(r.last_preset) == remembered_preset(opt_string(config.last_preset), preset@),
        *vault_path is None ==> opt_string(r.vault_path) == opt_string(config.vault_path),
        *vault_path is Some && trimmed((*vault_path)->0@).len() == 0 ==> r.vault_path is None,
        *vault_path is Some && trimmed((*vault_path)->0@).len() > 0 ==> opt_string(r.vault_path)
            == Some((*vault_path)->0@),
        trimmed(preset@).len() == 0 ==> opt_string(r.last_preset) == opt_string(config.last_preset),
        trimmed(preset@).len() > 0 ==> opt_string(r.last_preset) == Some(preset@),
{
    let path: Option<String> = match vault_path {
        Some(p) => if trim(&chars_of(p.as_str())).len() == 0 {
            None
        } else {
            Some(p.clone())
        },
        None => copy_opt(&config.vault_path),
    };
    let last: Option<String> = if trim(&chars_of(preset)).len() == 0 {
        copy_opt(&config.last_preset)
    } else {
        Some(preset.to_owned())
    };
    PluginConfig { vault_path: path, last_preset: last }
}

/// Where a preset is saved: in the vault, or without one in the plugin's own directory.
pub fn preset_save_dir(vault_path: &Option<String>, local: &str) -> (r: String)
    ensures
        r@ == match opt_string(*vault_path) {
            Some(p) => if p.len() > 0 {
                p
            } else {
                local@
            },
            None => local@,
        },
{
    match vault_path {
        Some(p) => if !p.as_str().is_empty() {
            p.clone()
        } else {
            local.to_owned()
        },
        None => local.to_owned(),
    }
}

/// The directory that is scanned when an editor opens: the vault, or without
/// one the plugin's own directory if it is there.
pub fn startup_scan(vault_path: &Option<String>, local: &Option<String>) -> (r: Option<String>)
    ensures
        opt_string(r) == match opt_string(*vault_path) {
            Some(p) => if p.len() > 0 {
                Some(p)
            } else {
                opt_string(*local)
            },
            None => opt_string(*local),
        },
{
    match vault_path {
        Some(p) => if !p.as_str().is_empty() {
            Some(p.clone())
        } else {
            copy_opt(local)
        },
        None => copy_opt(local),
    }
}

/// Using a preset without a vault does not make the plugin forget its vault,
/// and using a preset without a name not the preset that was used last.
pub proof fn law_config_is_not_forgotten(remembered: Option<Seq<char>>, blank: Seq<char>)
    requires
        trimmed(blank).len() == 0,
    ensures
        remembered_vault(remembered, None) == remembered,
        remembered_preset(remembered, blank) == remembered,
{
}

} // verus!
