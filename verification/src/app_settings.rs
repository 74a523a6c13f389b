pub mod settings;

use vstd::prelude::*;

verus! {

/// The service's settings: the port it listens on, the length of the short
/// codes it makes, and where the store keeps its files.
#[derive(Debug, PartialEq, Eq)]
pub struct AppSettings {
    pub port: u16,
    pub max_shortened_len: usize,
    pub store_dir: String,
}

/// A setting outside its range.
#[derive(Debug, Clone, Copy, PartialEq, Eq)]
pub enum SettingsError {
    /// The port is above 9999.
    PortOutOfRange,
    /// The code length is not between 1 and 7.
    MaxShortenedLenOutOfRange,
}

/// The port lies in 0..=9999.
pub open spec fn port_ok(port: u16) -> bool {
    port <= 9999
}

/// The code length lies in 1..=7.
pub open spec fn len_ok(n: usize) -> bool {
    1 <= n <= 7
}

/// The settings outside their ranges, in field order.
pub open spec fn settings_errors(port: u16, n: usize) -> Seq<SettingsError> {
    (if port_ok(port) {
        Seq::<SettingsError>::empty()
    } else {
        seq![SettingsError::PortOutOfRange]
    }) + (if len_ok(n) {
        Seq::<SettingsError>::empty()
    } else {
        seq![SettingsError::MaxShortenedLenOutOfRange]
    })
}

impl AppSettings {
    /// Checks each setting against its range and reports every one outside
    /// it, in field order; no report means the settings are valid.
    pub fn validate(&self) -> (r: Result<(), Vec<SettingsError>>)
        ensures
            r is Ok <==> port_ok(self.port) && len_ok(self.max_shortened_len),
            r matches Err(errs) ==> errs@ == settings_errors(self.port, self.max_shortened_len),
    {
        let mut errs: Vec<SettingsError> = Vec::new();
        if self.port > 9999 {
            errs.push(SettingsError::PortOutOfRange);
        }
        if self.max_shortened_len < 1 || self.max_shortened_len > 7 {
            errs.push(SettingsError::MaxShortenedLenOutOfRange);
        }
        if errs.len() == 0 {
            Ok(())
        } else {
            proof {
                assert(errs@ =~= settings_errors(self.port, self.max_shortened_len));
            }
            Err(errs)
        }
    }
}

/// Accepts settings that were read: checks them and, when they are valid,
/// installs them in the empty slot; invalid settings leave it empty.
pub fn resolve_settings(slot: &mut Option<AppSettings>, s: AppSettings) -> (r: Result<(), Vec<SettingsError>>)
    requires
        old(slot).is_none(),
    ensures
        r is Ok <==> port_ok(s.port) && len_ok(s.max_shortened_len),
        r is Ok ==> *final(slot) == Some(s),
        r matches Err(errs) ==> errs@ == settings_errors(s.port, s.max_shortened_len) && final(slot).is_none(),
{
    match s.validate() {
        Ok(()) => {
            settings::init(slot, s);
            Ok(())
        },
        Err(e) => Err(e),
    }
}

} // verus!
