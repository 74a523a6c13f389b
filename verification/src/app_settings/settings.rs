use vstd::prelude::*;
use crate::app_settings::AppSettings;

verus! {

/// Installs the settings in the empty slot; each slot is filled once.
pub fn init(slot: &mut Option<AppSettings>, s: AppSettings)
    requires
        old(slot).is_none(),
    ensures
        *final(slot) == Some(s),
{
    *slot = Some(s);
}

/// The installed settings.
pub fn get(slot: &Option<AppSettings>) -> (s: &AppSettings)
    requires
        slot.is_some(),
    ensures
        *s == slot.unwrap(),
{
    match slot {
        Some(s) => s,
        None => vstd::pervasive::unreached(),
    }
}

/// The installed length of short codes.
pub fn max_shortened_len(slot: &Option<AppSettings>) -> (n: usize)
    requires
        slot.is_some(),
    ensures
        n == slot.unwrap().max_shortened_len,
{
    get(slot).max_shortened_len
}

/// The installed port.
pub fn port(slot: &Option<AppSettings>) -> (p: u16)
    requires
        slot.is_some(),
    ensures
        p == slot.unwrap().port,
{
    get(slot).port
}

/// What a read gives back of a write: once `init` has installed `s`, `get`,
/// `max_shortened_len` and `port` report `s` and its fields.
pub proof fn lemma_get_after_init(filled: Option<AppSettings>, s: AppSettings)
    requires
        filled == Some(s),
    ensures
        filled.is_some(),
        filled.unwrap() == s,
        filled.unwrap().max_shortened_len == s.max_shortened_len,
        filled.unwrap().port == s.port,
{
}

} // verus!
