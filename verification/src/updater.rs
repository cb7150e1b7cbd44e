//! Release selection for the unsigned preview build: which published
//! release, if any, is newer than the running one and offers the archive and
//! checksum for this machine.
use vstd::prelude::*;
use vstd::string::StringExecFns;
use crate::text::{chars_of, split_chars, split_on, string_of};

verus! {

/// Whether `c` is an ASCII decimal digit.
pub open spec fn is_digit(c: char) -> bool {
    '0' <= c && c <= '9'
}

/// The value of a string of decimal digits.
pub open spec fn digits_value(d: Seq<char>) -> nat
    decreases d.len(),
{
    if d.len() == 0 {
        0
    } else {
        digits_value(d.drop_last()) * 10 + ((d.last() as nat) - ('0' as nat)) as nat
    }
}

/// The digits of a number text: without one leading `+`.
pub open spec fn unsigned_digits(s: Seq<char>) -> Seq<char> {
    if s.len() > 0 && s[0] == '+' {
        s.drop_first()
    } else {
        s
    }
}

/// `str::parse::<u64>`: an optional `+`, then at least one decimal digit,
/// and a value that fits in 64 bits.
pub open spec fn parse_u64(s: Seq<char>) -> Option<u64> {
    let d = unsigned_digits(s);
    if d.len() > 0 && (forall|i: int| 0 <= i < d.len() ==> is_digit(#[trigger] d[i]))
        && digits_value(d) <= u64::MAX {
        Some(digits_value(d) as u64)
    } else {
        None
    }
}

/// A version `major.minor.patch`: the first three dot-separated parts, each
/// a number; further parts are not read.
pub open spec fn parse_version(s: Seq<char>) -> Option<(u64, u64, u64)> {
    let p = split_on(s, '.');
    if p.len() >= 3 && parse_u64(p[0]) is Some && parse_u64(p[1]) is Some && parse_u64(p[2]) is Some {
        Some((parse_u64(p[0]).unwrap(), parse_u64(p[1]).unwrap(), parse_u64(p[2]).unwrap()))
    } else {
        None
    }
}

/// Lexicographic order of version triples.
pub open spec fn version_greater(a: (u64, u64, u64), b: (u64, u64, u64)) -> bool {
    ||| a.0 > b.0
    ||| (a.0 == b.0 && a.1 > b.1)
    ||| (a.0 == b.0 && a.1 == b.1 && a.2 > b.2)
}

/// No version is newer than itself, and being newer is transitive: the
/// version order is a strict order, so two versions are never each newer
/// than the other.
pub proof fn newer_is_strict_order(a: (u64, u64, u64), b: (u64, u64, u64), c: (u64, u64, u64))
    ensures
        !version_greater(a, a),
        version_greater(a, b) ==> !version_greater(b, a),
        version_greater(a, b) && version_greater(b, c) ==> version_greater(a, c),
        a != b ==> version_greater(a, b) || version_greater(b, a),
{
}

proof fn lemma_digits_value_grows(d: Seq<char>, n: int)
    requires
        0 <= n <= d.len(),
        forall|i: int| 0 <= i < d.len() ==> is_digit(#[trigger] d[i]),
    ensures
        digits_value(d.take(n)) <= digits_value(d),
    decreases d.len() - n,
{
    if n < d.len() {
        let t = d.take(n + 1);
        assert(t.drop_last() =~= d.take(n));
        assert(is_digit(d[n]));
        lemma_digits_value_grows(d, n + 1);
        assert(digits_value(t) == digits_value(d.take(n)) * 10 + ((d[n] as nat) - ('0' as nat)) as nat);
    } else {
        assert(d.take(n) =~= d);
    }
}

fn parse_number(s: &Vec<char>) -> (r: Option<u64>)
    ensures
        r == parse_u64(s@),
{
    let mut i: usize = 0;
    if s.len() > 0 && s[0] == '+' {
        i = 1;
    }
    let ghost d = unsigned_digits(s@);
    assert(d =~= s@.skip(i as int));
    if i >= s.len() {
        return None;
    }
    let start = i;
    let mut value: u64 = 0;
    while i < s.len()
        invariant
            start <= i <= s@.len(),
            start < s@.len(),
            d =~= s@.skip(start as int),
            d == unsigned_digits(s@),
            forall|k: int| 0 <= k < i - start ==> is_digit(#[trigger] d[k]),
            value as nat == digits_value(d.take(i - start)),
        decreases s@.len() - i,
    {
        let c = s[i];
        if !('0' <= c && c <= '9') {
            assert(!is_digit(d[i - start]));
            return None;
        }
        let digit: u64 = (c as u32 - '0' as u32) as u64;
        assert(d.take(i + 1 - start).drop_last() =~= d.take(i - start));
        assert(digits_value(d.take(i + 1 - start)) == value * 10 + digit);
        if value > 1844674407370955161u64 || (value == 1844674407370955161u64 && digit > 5) {
            proof {
                assert(value * 10 + digit > u64::MAX) by (nonlinear_arith)
                    requires
                        value > 1844674407370955161u64 || (value == 1844674407370955161u64
                            && digit > 5),
                ;
                if forall|k: int| 0 <= k < d.len() ==> is_digit(#[trigger] d[k]) {
                    lemma_digits_value_grows(d, i + 1 - start);
                }
            }
            return None;
        }
        value = value * 10 + digit;
        i = i + 1;
    }
    assert(d.take(i - start) =~= d);
    Some(value)
}


fn parse_version_text(s: &str) -> (r: Option<(u64, u64, u64)>)
    ensures
        r == parse_version(s@),
{
    let parts = split_chars(s, '.');
    if parts.len() < 3 {
        return None;
    }
    let major = parse_number(&parts[0]);
    let minor = parse_number(&parts[1]);
    let patch = parse_number(&parts[2]);
    match (major, minor, patch) {
        (Some(a), Some(b), Some(c)) => Some((a, b, c)),
        _ => None,
    }
}

/// Whether `candidate` is a later `major.minor.patch` version than
/// `current`; false when either does not read as one.
pub fn is_newer_version(candidate: &str, current: &str) -> (b: bool)
    ensures
        b == (parse_version(candidate@) is Some && parse_version(current@) is Some
            && version_greater(parse_version(candidate@).unwrap(), parse_version(current@).unwrap())),
{
    match (parse_version_text(candidate), parse_version_text(current)) {
        (Some(a), Some(b)) => a.0 > b.0 || (a.0 == b.0 && a.1 > b.1) || (a.0 == b.0 && a.1 == b.1
            && a.2 > b.2),
        _ => false,
    }
}

/// Where release downloads must come from.
pub const RELEASE_DOWNLOAD_PREFIX: &'static str = "https://github.com/jteso/luminatti/releases/download/";

/// A downloadable release newer than the running build.
#[derive(Clone, Debug)]
pub struct Release {
    pub version: String,
    pub archive_url: String,
    pub checksum_url: String,
}

/// What the update check reports.
pub enum Event {
    Available(Release),
    Unavailable,
}

/// A file attached to a published release.
pub struct ReleaseAsset {
    pub name: String,
    pub browser_download_url: String,
}

/// `s` without its leading `v` characters (`trim_start_matches('v')`).
pub open spec fn trim_leading_v(s: Seq<char>) -> Seq<char>
    decreases s.len(),
{
    if s.len() > 0 && s[0] == 'v' {
        trim_leading_v(s.drop_first())
    } else {
        s
    }
}

/// The download address of the first asset named `name`.
pub open spec fn asset_url(assets: Seq<ReleaseAsset>, name: Seq<char>) -> Option<Seq<char>>
    decreases assets.len(),
{
    if assets.len() == 0 {
        None
    } else if assets[0].name@ == name {
        Some(assets[0].browser_download_url@)
    } else {
        asset_url(assets.drop_first(), name)
    }
}

/// The archive built for `arch`: `Luminatti-macos-{arch}.zip`.
pub open spec fn archive_name(arch: Seq<char>) -> Seq<char> {
    "Luminatti-macos-"@ + arch + ".zip"@
}

/// The checksum sidecar of the archive.
pub open spec fn checksum_name(arch: Seq<char>) -> Seq<char> {
    archive_name(arch) + ".sha256"@
}

pub open spec fn from_release_host(url: Option<Seq<char>>) -> bool {
    url is Some && RELEASE_DOWNLOAD_PREFIX@.is_prefix_of(url.unwrap())
}

fn trim_start_v(s: &str) -> (r: String)
    ensures
        r@ == trim_leading_v(s@),
{
    let chars = chars_of(s);
    let mut i: usize = 0;
    assert(chars@.skip(0) =~= chars@);
    while i < chars.len() && chars[i] == 'v'
        invariant
            chars@ == s@,
            i <= chars@.len(),
            trim_leading_v(s@) == trim_leading_v(chars@.skip(i as int)),
        decreases chars@.len() - i,
    {
        assert(chars@.skip(i as int).drop_first() =~= chars@.skip(i + 1));
        i = i + 1;
    }
    assert(chars@.subrange(i as int, chars@.len() as int) =~= chars@.skip(i as int));
    string_of(&chars, i, chars.len())
}

fn find_asset_url(assets: &[ReleaseAsset], name: &String) -> (r: Option<String>)
    ensures
        match r {
            Some(u) => asset_url(assets@, name@) == Some(u@),
            None => asset_url(assets@, name@) is None,
        },
{
    let mut i: usize = 0;
    assert(assets@.skip(0) =~= assets@);
    while i < assets.len()
        invariant
            i <= assets@.len(),
            asset_url(assets@, name@) == asset_url(assets@.skip(i as int), name@),
        decreases assets@.len() - i,
    {
        assert(assets@.skip(i as int)[0] == assets@[i as int]);
        assert(assets@.skip(i as int).drop_first() =~= assets@.skip(i + 1));
        if same_string(&assets[i].name, name) {
            return Some(assets[i].browser_download_url.clone());
        }
        i = i + 1;
    }
    None
}

fn same_string(a: &String, b: &String) -> (r: bool)
    ensures
        r == (a@ == b@),
{
    *a == *b
}

fn starts_with_prefix(s: &String, prefix: &str) -> (r: bool)
    ensures
        r == prefix@.is_prefix_of(s@),
{
    let cs = chars_of(s.as_str());
    let ps = chars_of(prefix);
    if ps.len() > cs.len() {
        return false;
    }
    let mut i: usize = 0;
    while i < ps.len()
        invariant
            cs@ == s@,
            ps@ == prefix@,
            ps@.len() <= cs@.len(),
            i <= ps@.len(),
            forall|k: int| 0 <= k < i ==> ps@[k] == cs@[k],
        decreases ps@.len() - i,
    {
        if ps[i] != cs[i] {
            return false;
        }
        i = i + 1;
    }
    true
}

/// The release to offer from the latest published one: its tag without
/// leading `v`s must be a newer version than `current_version`, and the
/// archive for `arch` and its checksum must both be attached and hosted
/// under the project's release downloads.
pub fn select_release(
    tag_name: &str,
    assets: &[ReleaseAsset],
    current_version: &str,
    arch: &str,
) -> (r: Option<Release>)
    ensures
        r is Some <== {
            &&& parse_version(trim_leading_v(tag_name@)) is Some
            &&& parse_version(current_version@) is Some
            &&& version_greater(
                parse_version(trim_leading_v(tag_name@)).unwrap(),
                parse_version(current_version@).unwrap(),
            )
            &&& from_release_host(asset_url(assets@, archive_name(arch@)))
            &&& from_release_host(asset_url(assets@, checksum_name(arch@)))
        },
        r matches Some(release) ==> {
            &&& parse_version(trim_leading_v(tag_name@)) is Some
            &&& parse_version(current_version@) is Some
            &&& version_greater(
                parse_version(trim_leading_v(tag_name@)).unwrap(),
                parse_version(current_version@).unwrap(),
            )
            &&& from_release_host(asset_url(assets@, archive_name(arch@)))
            &&& from_release_host(asset_url(assets@, checksum_name(arch@)))
            &&& release.version@ == trim_leading_v(tag_name@)
            &&& Some(release.archive_url@) == asset_url(assets@, archive_name(arch@))
            &&& Some(release.checksum_url@) == asset_url(assets@, checksum_name(arch@))
        },
{
    let version = trim_start_v(tag_name);
    if !is_newer_version(version.as_str(), current_version) {
        return None;
    }
    let mut archive = String::new();
    archive.append("Luminatti-macos-");
    archive.append(arch);
    archive.append(".zip");
    let mut checksum = archive.clone();
    checksum.append(".sha256");
    assert(archive@ =~= archive_name(arch@));
    assert(checksum@ =~= checksum_name(arch@));
    let archive_url = find_asset_url(assets, &archive);
    let checksum_url = find_asset_url(assets, &checksum);
    match (archive_url, checksum_url) {
        (Some(archive_url), Some(checksum_url)) => {
            if starts_with_prefix(&archive_url, RELEASE_DOWNLOAD_PREFIX) && starts_with_prefix(
                &checksum_url,
                RELEASE_DOWNLOAD_PREFIX,
            ) {
                Some(Release { version, archive_url, checksum_url })
            } else {
                None
            }
        },
        _ => None,
    }
}

} // verus!
