//! Job keys and their textual forms.
//!
//! A job key is a whole number of milliseconds. It is rendered as a decimal
//! number of seconds with exactly three places (`2110` is `"2.110"`).
use vstd::prelude::*;

verus! {

/// The decimal digit `d` as a character.
pub open spec fn digit_char(d: nat) -> char {
    seq!['0', '1', '2', '3', '4', '5', '6', '7', '8', '9'][d as int]
}

/// The decimal digits of `n`, most significant first, with no leading zeros.
pub open spec fn nat_text(n: nat) -> Seq<char>
    decreases n,
{
    if n < 10 {
        seq![digit_char(n)]
    } else {
        nat_text(n / 10).push(digit_char(n % 10))
    }
}

/// A non-negative number of milliseconds as seconds with three decimal places.
pub open spec fn millis_text(n: nat) -> Seq<char> {
    nat_text(n / 1000) + seq!['.', digit_char((n / 100) % 10), digit_char((n / 10) % 10), digit_char(n % 10)]
}

/// The rendering of a key: its sign, then its magnitude as `millis_text`.
pub open spec fn key_text(key: int) -> Seq<char> {
    if key < 0 {
        seq!['-'] + millis_text((-key) as nat)
    } else {
        millis_text(key as nat)
    }
}

/// One decimal digit as a one-character string.
fn digit_str(d: u64) -> (r: &'static str)
    requires
        d < 10,
    ensures
        r@ == seq![digit_char(d as nat)],
{
    let digits = "0123456789";
    proof {
        reveal_strlit("0123456789");
    }
    let r = digits.substring_char(d as usize, d as usize + 1);
    assert(r@ =~= seq![digit_char(d as nat)]);
    r
}

/// Appends the decimal digits of `n` to `out`.
fn push_nat_text(out: &mut String, n: u64)
    ensures
        final(out)@ == old(out)@ + nat_text(n as nat),
    decreases n,
{
    if n < 10 {
        out.append(digit_str(n));
    } else {
        push_nat_text(out, n / 10);
        out.append(digit_str(n % 10));
        assert(final(out)@ =~= old(out)@ + nat_text(n as nat));
    }
}

/// Renders a key as a decimal number of seconds with three places.
pub fn format_key(key: i32) -> (r: String)
    ensures
        r@ == key_text(key as int),
{
    let mut out = String::new();
    let magnitude: u64;
    if key < 0 {
        out.append("-");
        magnitude = (-(key as i64)) as u64;
    } else {
        magnitude = key as u64;
    }
    push_nat_text(&mut out, magnitude / 1000);
    out.append(".");
    out.append(digit_str((magnitude / 100) % 10));
    out.append(digit_str((magnitude / 10) % 10));
    out.append(digit_str(magnitude % 10));
    proof {
        reveal_strlit("-");
        reveal_strlit(".");
    }
    assert(out@ =~= key_text(key as int));
    out
}

/// The endpoint that answers after the delay given at the end of its path.
pub const DELAY_URL_PREFIX: &'static str = "https://httpbin.org/delay/";

/// The request URL of the job with key `key`: the key's seconds are the delay.
pub open spec fn delay_url_text(key: int) -> Seq<char> {
    DELAY_URL_PREFIX@ + key_text(key)
}

/// The request URL of the job with key `key`.
pub fn delay_url(key: i32) -> (r: String)
    ensures
        r@ == delay_url_text(key as int),
{
    let mut url = String::from_str(DELAY_URL_PREFIX);
    let text = format_key(key);
    url.append(text.as_str());
    url
}

} // verus!
