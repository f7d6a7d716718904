//! The run's settings: the concurrency cap, which is required, and the log
//! verbosity, which is optional. Both arrive as the text of a setting, or
//! nothing where the setting is absent.
use vstd::prelude::*;

verus! {

/// The name of the setting that holds the concurrency cap.
pub const CAP_SETTING: &'static str = "MAX_CONCURRENT_CALLS";

/// The name of the setting that selects verbose logging.
pub const LOG_LEVEL_SETTING: &'static str = "CNCRNCY_TMPLT__LOG_LEVEL";

/// Why the concurrency cap could not be read. Each is fatal: the run does
/// not start.
#[derive(Debug, Clone, Copy, PartialEq, Eq, Structural)]
pub enum ConfigError {
    /// The setting is absent.
    Missing,
    /// The setting is not a whole number that fits a `usize`.
    NotANumber,
    /// The setting is zero.
    NotPositive,
}

/// `c` is an ASCII decimal digit.
pub open spec fn is_digit(c: char) -> bool {
    '0' <= c <= '9'
}

/// The value of the decimal digit `c`.
pub open spec fn digit_value(c: char) -> nat {
    (c as int - '0' as int) as nat
}

/// Every character of `s` is a decimal digit.
pub open spec fn all_digits(s: Seq<char>) -> bool {
    forall|i: int| 0 <= i < s.len() ==> is_digit(#[trigger] s[i])
}

/// The number that the decimal digits `s` write.
pub open spec fn decimal_value(s: Seq<char>) -> nat
    decreases s.len(),
{
    if s.len() == 0 {
        0
    } else {
        decimal_value(s.drop_last()) * 10 + digit_value(s.last())
    }
}

/// `s` writes a whole number that fits a `usize`.
pub open spec fn is_cap_number(s: Seq<char>) -> bool {
    s.len() > 0 && all_digits(s) && decimal_value(s) <= usize::MAX
}

/// A longer run of digits writes at least the number that its prefix writes.
proof fn lemma_prefix_value(s: Seq<char>, j: int)
    requires
        0 <= j <= s.len(),
    ensures
        decimal_value(s.subrange(0, j)) <= decimal_value(s),
    decreases s.len(),
{
    if j < s.len() {
        assert(s.drop_last().subrange(0, j) =~= s.subrange(0, j));
        lemma_prefix_value(s.drop_last(), j);
    } else {
        assert(s.subrange(0, j) =~= s);
    }
}

/// Reads the concurrency cap from its setting: a positive whole number in
/// decimal digits.
pub fn concurrency_cap(setting: Option<&str>) -> (r: Result<usize, ConfigError>)
    ensures
        setting is None ==> r == Err::<usize, ConfigError>(ConfigError::Missing),
        setting matches Some(t) ==> {
            &&& !is_cap_number(t@) ==> r == Err::<usize, ConfigError>(ConfigError::NotANumber)
            &&& is_cap_number(t@) && decimal_value(t@) == 0 ==> r == Err::<usize, ConfigError>(ConfigError::NotPositive)
            &&& is_cap_number(t@) && decimal_value(t@) > 0 ==> r == Ok::<usize, ConfigError>(decimal_value(t@) as usize)
        },
{
    let text = match setting {
        None => {
            return Err(ConfigError::Missing);
        },
        Some(t) => t,
    };
    let n = text.unicode_len();
    if n == 0 {
        return Err(ConfigError::NotANumber);
    }
    let mut value: usize = 0;
    let mut i: usize = 0;
    while i < n
        invariant
            setting == Some(text),
            n == text@.len(),
            i <= n,
            all_digits(text@.subrange(0, i as int)),
            value == decimal_value(text@.subrange(0, i as int)),
        decreases n - i,
    {
        let c = text.get_char(i);
        let ghost prefix = text@.subrange(0, i as int);
        let ghost next = text@.subrange(0, i as int + 1);
        assert(next.drop_last() =~= prefix);
        if !('0' <= c && c <= '9') {
            assert(!all_digits(text@)) by {
                assert(!is_digit(text@[i as int]));
            }
            return Err(ConfigError::NotANumber);
        }
        let d = (c as u32 - '0' as u32) as usize;
        if value > (usize::MAX - d) / 10 {
            proof {
                assert(value * 10 + d > usize::MAX) by (nonlinear_arith)
                    requires
                        value > (usize::MAX - d) / 10,
                        d <= 9,
                ;
                lemma_prefix_value(text@, i as int + 1);
            }
            return Err(ConfigError::NotANumber);
        }
        proof {
            assert(value * 10 + d <= usize::MAX) by (nonlinear_arith)
                requires
                    value <= (usize::MAX - d) / 10,
                    d <= 9,
            ;
        }
        value = value * 10 + d;
        i += 1;
    }
    assert(text@.subrange(0, n as int) =~= text@);
    if value == 0 {
        Err(ConfigError::NotPositive)
    } else {
        Ok(value)
    }
}

/// What a setting error says: the setting's name and what is wrong with it.
pub open spec fn config_error_text(e: ConfigError) -> Seq<char> {
    match e {
        ConfigError::Missing => CAP_SETTING@ + " is not set"@,
        ConfigError::NotANumber => CAP_SETTING@ + " is not a whole number"@,
        ConfigError::NotPositive => CAP_SETTING@ + " must be at least 1"@,
    }
}

impl ConfigError {
    /// A message that names the setting and what is wrong with it.
    pub fn message(&self) -> (r: String)
        ensures
            r@ == config_error_text(*self),
    {
        let mut text = String::from_str(CAP_SETTING);
        match self {
            ConfigError::Missing => text.append(" is not set"),
            ConfigError::NotANumber => text.append(" is not a whole number"),
            ConfigError::NotPositive => text.append(" must be at least 1"),
        }
        text
    }
}

/// Whether the log verbosity setting asks for verbose logging: exactly when
/// it is `debug`. An absent setting means normal logging.
pub fn verbose_logging(setting: Option<&str>) -> (r: bool)
    ensures
        r == (setting matches Some(t) && t@ == "debug"@),
{
    match setting {
        None => false,
        Some(t) => String::from_str(t) == String::from_str("debug"),
    }
}

} // verus!
