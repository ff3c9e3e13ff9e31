use vstd::prelude::*;
use vstd::string::StringSliceAdditionalSpecFns;

verus! {

/// Severity of a log message, from most to least severe.
#[derive(PartialEq, Eq, Structural, Copy, Clone, Debug)]
pub enum LogLevel {
    Error,
    Warn,
    Info,
    Debug,
    Trace,
}

pub open spec fn level_rank(l: LogLevel) -> u8 {
    match l {
        LogLevel::Error => 1,
        LogLevel::Warn => 2,
        LogLevel::Info => 3,
        LogLevel::Debug => 4,
        LogLevel::Trace => 5,
    }
}

/// The bytes of `word`, in lower or upper case.
pub open spec fn names(s: Seq<u8>, lower: Seq<u8>, upper: Seq<u8>) -> bool {
    s == lower || s == upper
}

pub open spec fn level_named(s: Seq<u8>) -> LogLevel {
    if names(s, seq![101u8, 114, 114, 111, 114], seq![69u8, 82, 82, 79, 82]) {
        LogLevel::Error
    } else if names(s, seq![119u8, 97, 114, 110], seq![87u8, 65, 82, 78]) {
        LogLevel::Warn
    } else if names(s, seq![105u8, 110, 102, 111], seq![73u8, 78, 70, 79]) {
        LogLevel::Info
    } else if names(s, seq![100u8, 101, 98, 117, 103], seq![68u8, 69, 66, 85, 71]) {
        LogLevel::Debug
    } else if names(s, seq![116u8, 114, 97, 99, 101], seq![84u8, 82, 65, 67, 69]) {
        LogLevel::Trace
    } else {
        LogLevel::Info
    }
}

fn bytes_are(s: &[u8], w: &[u8]) -> (r: bool)
    ensures
        r == (s@ == w@),
{
    if s.len() != w.len() {
        return false;
    }
    let mut i: usize = 0;
    while i < s.len()
        invariant
            s@.len() == w@.len(),
            i <= s@.len(),
            forall|k: int| 0 <= k < i ==> s@[k] == w@[k],
        decreases s@.len() - i,
    {
        if s[i] != w[i] {
            return false;
        }
        i = i + 1;
    }
    assert(s@ =~= w@);
    true
}

impl LogLevel {
    /// The level a setting names: "error", "warn", "info", "debug" or "trace",
    /// in lower or upper case; anything else means `Info`.
    pub fn from_str(s: &str) -> (r: LogLevel)
        ensures
            r == level_named(s.spec_bytes()),
    {
        let b = s.as_bytes();
        let error_l: [u8; 5] = [101, 114, 114, 111, 114];
        let error_u: [u8; 5] = [69, 82, 82, 79, 82];
        let warn_l: [u8; 4] = [119, 97, 114, 110];
        let warn_u: [u8; 4] = [87, 65, 82, 78];
        let info_l: [u8; 4] = [105, 110, 102, 111];
        let info_u: [u8; 4] = [73, 78, 70, 79];
        let debug_l: [u8; 5] = [100, 101, 98, 117, 103];
        let debug_u: [u8; 5] = [68, 69, 66, 85, 71];
        let trace_l: [u8; 5] = [116, 114, 97, 99, 101];
        let trace_u: [u8; 5] = [84, 82, 65, 67, 69];
        assert(error_l@ =~= seq![101u8, 114, 114, 111, 114]);
        assert(error_u@ =~= seq![69u8, 82, 82, 79, 82]);
        assert(warn_l@ =~= seq![119u8, 97, 114, 110]);
        assert(warn_u@ =~= seq![87u8, 65, 82, 78]);
        assert(info_l@ =~= seq![105u8, 110, 102, 111]);
        assert(info_u@ =~= seq![73u8, 78, 70, 79]);
        assert(debug_l@ =~= seq![100u8, 101, 98, 117, 103]);
        assert(debug_u@ =~= seq![68u8, 69, 66, 85, 71]);
        assert(trace_l@ =~= seq![116u8, 114, 97, 99, 101]);
        assert(trace_u@ =~= seq![84u8, 82, 65, 67, 69]);
        if bytes_are(b, &error_l) || bytes_are(b, &error_u) {
            LogLevel::Error
        } else if bytes_are(b, &warn_l) || bytes_are(b, &warn_u) {
            LogLevel::Warn
        } else if bytes_are(b, &info_l) || bytes_are(b, &info_u) {
            LogLevel::Info
        } else if bytes_are(b, &debug_l) || bytes_are(b, &debug_u) {
            LogLevel::Debug
        } else if bytes_are(b, &trace_l) || bytes_are(b, &trace_u) {
            LogLevel::Trace
        } else {
            LogLevel::Info
        }
    }

    /// The level's rank: 1 for `Error` up to 5 for `Trace`.
    pub fn rank(&self) -> (r: u8)
        ensures
            r == level_rank(*self),
    {
        match self {
            LogLevel::Error => 1,
            LogLevel::Warn => 2,
            LogLevel::Info => 3,
            LogLevel::Debug => 4,
            LogLevel::Trace => 5,
        }
    }

    /// Whether a message of level `msg` is printed under this setting: when
    /// it is at least as severe as the setting.
    pub fn enables(&self, msg: LogLevel) -> (r: bool)
        ensures
            r == (level_rank(*self) >= level_rank(msg)),
    {
        self.rank() >= msg.rank()
    }
}

/// The log level the kernel was built with: the one the `LOG_LEVEL` setting
/// names, `Info` when it is not set.
pub fn current_log_level(setting: Option<&str>) -> (r: LogLevel)
    ensures
        r == (match setting {
            Some(s) => level_named(s.spec_bytes()),
            None => LogLevel::Info,
        }),
{
    match setting {
        Some(s) => LogLevel::from_str(s),
        None => LogLevel::Info,
    }
}

}
