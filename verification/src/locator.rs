//! The locator codec: counts and a filename as a path of three segments.

use vstd::prelude::*;
use vstd::string::*;
use crate::BitCounts;
use url::Url;

verus! {

/// The origin against which a locator that is only a path is resolved.
pub const SERVER_BASE: &'static str = "https://summer-host-storage.yoursunny.dev";

/// The lowercase hexadecimal digit for `d`, which is below sixteen.
pub open spec fn hex_digit(d: nat) -> char {
    if d < 10 {
        ('0' as nat + d) as char
    } else {
        ('a' as nat + d - 10) as char
    }
}

/// The value of a hexadecimal digit in either case, `None` for any other character.
pub open spec fn hex_digit_value(c: char) -> Option<nat> {
    if '0' <= c <= '9' {
        Some((c as nat - '0' as nat) as nat)
    } else if 'a' <= c <= 'f' {
        Some((c as nat - 'a' as nat + 10) as nat)
    } else if 'A' <= c <= 'F' {
        Some((c as nat - 'A' as nat + 10) as nat)
    } else {
        None
    }
}

/// `n` in lowercase hexadecimal digits, without a prefix and without leading
/// zeros; zero is the one digit `0`.
pub open spec fn hex_digits(n: nat) -> Seq<char>
    decreases n,
{
    if n < 16 {
        seq![hex_digit(n)]
    } else {
        hex_digits(n / 16).push(hex_digit(n % 16))
    }
}

/// Whether `s` is one or more hexadecimal digits and nothing else.
pub open spec fn is_hex(s: Seq<char>) -> bool {
    &&& s.len() > 0
    &&& forall|i: int| 0 <= i < s.len() ==> (#[trigger] hex_digit_value(s[i])) is Some
}

/// The number that the hexadecimal digits `s` stand for.
pub open spec fn hex_value(s: Seq<char>) -> nat
    decreases s.len(),
{
    if s.len() == 0 {
        0
    } else {
        hex_value(s.drop_last()) * 16 + match hex_digit_value(s.last()) {
            Some(d) => d,
            None => 0,
        }
    }
}

/// What a segment parses to: the number that it stands for in hexadecimal,
/// where it is made of hexadecimal digits and the number fits.
pub open spec fn parsed_hex(s: Seq<char>) -> Option<u64> {
    if is_hex(s) && hex_value(s) <= u64::MAX {
        Some(hex_value(s) as u64)
    } else {
        None
    }
}

/// The digits of `n` are hexadecimal digits, and they stand for `n`.
pub proof fn lemma_hex_round_trip(n: nat)
    ensures
        is_hex(hex_digits(n)),
        hex_value(hex_digits(n)) == n,
    decreases n,
{
    let s = hex_digits(n);
    if n < 16 {
        assert(s.drop_last() =~= Seq::<char>::empty());
        assert(hex_value(s.drop_last()) == 0);
        assert(hex_digit_value(hex_digit(n)) == Some(n));
    } else {
        lemma_hex_round_trip(n / 16);
        assert(s.drop_last() =~= hex_digits(n / 16));
        assert(hex_digit_value(hex_digit(n % 16)) == Some(n % 16));
        assert forall|i: int| 0 <= i < s.len() implies (#[trigger] hex_digit_value(
            s[i],
        )) is Some by {
            if i < s.len() - 1 {
                assert(s[i] == hex_digits(n / 16)[i]);
            }
        }
    }
}

/// The digits at the front of `s` stand for no more than all of `s` does.
proof fn lemma_hex_value_prefix(s: Seq<char>, k: int)
    requires
        0 <= k <= s.len(),
    ensures
        hex_value(s.take(k)) <= hex_value(s),
    decreases s.len() - k,
{
    if k == s.len() {
        assert(s.take(k) =~= s);
    } else {
        lemma_hex_value_prefix(s.drop_last(), k);
        assert(s.drop_last().take(k) =~= s.take(k));
    }
}

/// Appends the hexadecimal digits of `n` to `out`.
fn push_hex(out: &mut String, n: u64)
    ensures
        final(out)@ == old(out)@ + hex_digits(n as nat),
    decreases n,
{
    if n >= 16 {
        push_hex(out, n / 16);
    }
    let d = (n % 16) as usize;
    let digits = "0123456789abcdef";
    proof {
        reveal_strlit("0123456789abcdef");
    }
    let digit = digits.substring_ascii(d, d + 1);
    assert(digit@ =~= seq![hex_digit(d as nat)]);
    out.append(digit);
    assert(out@ =~= old(out)@ + hex_digits(n as nat));
}

/// `n` in lowercase hexadecimal digits.
pub fn to_hex(n: u64) -> (s: String)
    ensures
        s@ == hex_digits(n as nat),
{
    let mut s = String::new();
    push_hex(&mut s, n);
    assert(Seq::<char>::empty() + hex_digits(n as nat) =~= hex_digits(n as nat));
    s
}

/// Parses `s` as a hexadecimal number: one or more digits in either case,
/// with no sign and no prefix, that stand for a number that fits.
pub fn parse_hex(s: &str) -> (r: Option<u64>)
    ensures
        r == parsed_hex(s@),
{
    broadcast use is_ascii_spec_bytes;

    if !s.is_ascii() {
        proof {
            if is_hex(s@) {
                assert forall|i: int| 0 <= i < s@.len() implies '\0' <= #[trigger] s@[i]
                    <= '\u{7f}' by {
                    assert(hex_digit_value(s@[i]) is Some);
                }
            }
        }
        return None;
    }
    let bytes = s.as_bytes();
    let n = bytes.len();
    if n == 0 {
        return None;
    }
    let mut acc: u64 = 0;
    let mut i: usize = 0;
    assert(s@.take(0) =~= Seq::<char>::empty());
    while i < n
        invariant
            i <= n,
            n == s@.len(),
            is_ascii(s),
            bytes@ == s.spec_bytes(),
            acc == hex_value(s@.take(i as int)),
            forall|k: int| 0 <= k < i ==> (#[trigger] hex_digit_value(s@[k])) is Some,
        decreases n - i,
    {
        let b = bytes[i];
        let ghost c = s@[i as int];
        assert(b == c as u8);
        let d: u64 = if '0' as u8 <= b && b <= '9' as u8 {
            (b - '0' as u8) as u64
        } else if 'a' as u8 <= b && b <= 'f' as u8 {
            (b - 'a' as u8) as u64 + 10
        } else if 'A' as u8 <= b && b <= 'F' as u8 {
            (b - 'A' as u8) as u64 + 10
        } else {
            assert(hex_digit_value(s@[i as int]) is None);
            return None;
        };
        proof {
            let next = s@.take(i + 1);
            assert(hex_digit_value(c) == Some(d as nat));
            assert(next.drop_last() =~= s@.take(i as int));
            assert(next.last() == c);
            assert(hex_value(next) == acc * 16 + d);
            lemma_hex_value_prefix(s@, i + 1);
        }
        if acc > (u64::MAX - d) / 16 {
            return None;
        }
        acc = acc * 16 + d;
        i += 1;
    }
    assert(s@.take(i as int) =~= s@);
    Some(acc)
}

/// The path that locates `counts` under `filename`: a slash before each of
/// the zero count in hexadecimal, the one count in hexadecimal and the
/// filename as it is.
pub open spec fn locator_path(counts: BitCounts, filename: Seq<char>) -> Seq<char> {
    seq!['/'] + hex_digits(counts.cnt0 as nat) + seq!['/'] + hex_digits(counts.cnt1 as nat)
        + seq!['/'] + filename
}

/// What the segments of a path locate: counts and a filename where there
/// are exactly three segments and the first two parse as hexadecimal
/// numbers, and nothing otherwise.
pub open spec fn locator_of(segments: Seq<Seq<char>>) -> Option<(BitCounts, Seq<char>)> {
    if segments.len() == 3 {
        match (parsed_hex(segments[0]), parsed_hex(segments[1])) {
            (Some(cnt0), Some(cnt1)) => Some((BitCounts { cnt0, cnt1 }, segments[2])),
            _ => None,
        }
    } else {
        None
    }
}

/// The characters of each string of `strings`.
pub open spec fn texts(strings: Seq<String>) -> Seq<Seq<char>> {
    strings.map_values(|s: String| s@)
}

/// A decoded locator with its filename as a sequence of characters.
pub open spec fn locator_view(locator: Option<(BitCounts, String)>) -> Option<
    (BitCounts, Seq<char>),
> {
    match locator {
        Some((counts, filename)) => Some((counts, filename@)),
        None => None,
    }
}

/// The segments of the path of `input` read as a URL and resolved against
/// `base`; `None` where either is no URL or the URL has no path of segments.
pub uninterp spec fn url_path_segments(base: Seq<char>, input: Seq<char>) -> Option<
    Seq<Seq<char>>,
>;

/// What `url` locates: what the segments of its path locate, where it has
/// any once it is resolved against `SERVER_BASE`.
pub open spec fn locator_at(url: Seq<char>) -> Option<(BitCounts, Seq<char>)> {
    match url_path_segments(SERVER_BASE@, url) {
        Some(segments) => locator_of(segments),
        None => None,
    }
}

/// Parses `base` with `url::Url::parse`, resolves `input` against it with
/// `url::Url::join` and splits the outcome's path with
/// `url::Url::path_segments`. Nothing is proved of these. The contract gives
/// the outcome its name, `url_path_segments`, and says of it what the
/// splitting at each slash shows: there is at least one segment, and no
/// segment holds a slash.
#[verifier::external_body]
pub(crate) fn path_segments(base: &str, input: &str) -> (segments: Option<Vec<String>>)
    ensures
        match segments {
            Some(v) => {
                &&& url_path_segments(base@, input@) == Some(texts(v@))
                &&& v@.len() >= 1
                &&& forall|i: int| 0 <= i < v@.len() ==> !(#[trigger] v@[i])@.contains('/')
            },
            None => url_path_segments(base@, input@) is None,
        },
{
    let base = Url::parse(base).ok()?;
    let url = base.join(input).ok()?;
    let segments = url.path_segments()?;
    Some(segments.map(String::from).collect())
}

/// Three segments of which the first two are the digits of counts locate
/// those counts and the third segment.
pub proof fn lemma_locator_round_trip(counts: BitCounts, filename: Seq<char>)
    ensures
        locator_of(
            seq![hex_digits(counts.cnt0 as nat), hex_digits(counts.cnt1 as nat), filename],
        ) == Some((counts, filename)),
{
    lemma_hex_round_trip(counts.cnt0 as nat);
    lemma_hex_round_trip(counts.cnt1 as nat);
}

/// Segments that are not three in number, or whose first or second is not a
/// hexadecimal number, locate nothing.
pub proof fn lemma_locator_rejects(segments: Seq<Seq<char>>)
    requires
        segments.len() != 3 || !is_hex(segments[0]) || !is_hex(segments[1]),
    ensures
        locator_of(segments) is None,
{
}

/// Decodes the segments of a path.
pub fn decode_segments(segments: &Vec<String>) -> (locator: Option<(BitCounts, String)>)
    ensures
        locator_view(locator) == locator_of(texts(segments@)),
{
    if segments.len() != 3 {
        return None;
    }
    let cnt0 = match parse_hex(segments[0].as_str()) {
        Some(n) => n,
        None => {
            return None;
        },
    };
    let cnt1 = match parse_hex(segments[1].as_str()) {
        Some(n) => n,
        None => {
            return None;
        },
    };
    Some((BitCounts { cnt0, cnt1 }, segments[2].clone()))
}

impl BitCounts {
    /// The locator of these counts under `filename`.
    pub fn to_url(&self, filename: &str) -> (path: String)
        ensures
            path@ == locator_path(*self, filename@),
    {
        let mut path = String::new();
        path.append("/");
        push_hex(&mut path, self.cnt0);
        path.append("/");
        push_hex(&mut path, self.cnt1);
        path.append("/");
        path.append(filename);
        proof {
            reveal_strlit("/");
            assert("/"@ =~= seq!['/']);
            assert(path@ =~= locator_path(*self, filename@));
        }
        path
    }

    /// Decodes a locator: an absolute URL, or a path, which is resolved
    /// against `SERVER_BASE`. The filename is one segment of the path and
    /// holds no slash.
    pub fn from_url(url: &str) -> (locator: Option<(BitCounts, String)>)
        ensures
            locator_view(locator) == locator_at(url@),
            match locator {
                Some((_, filename)) => !filename@.contains('/'),
                None => true,
            },
    {
        match path_segments(SERVER_BASE, url) {
            Some(segments) => decode_segments(&segments),
            None => None,
        }
    }
}

} // verus!
