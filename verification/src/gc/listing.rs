//! Names in the object store, and the grace period as a text.

use vstd::prelude::*;
use vstd::string::StringExecFns;
use crate::gc::pack_set::PackRef;
use crate::gc::state::pack_key_text;
use crate::text::{
    before_char, before_suffix, behind_prefix, chars_of, decimal, decimal4, digit_value,
    digits_value, find_char, hex16, law_decimal_reads_back, lemma_before_char,
    lemma_decimal4_value, lemma_hex16_value, lemma_is_before_char, lemma_value_digits,
    parse_number, parsed_number, same_option, strip_prefix, strip_suffix, text_between,
    trim_end_char, trimmed_end,
};
use crate::time::Duration;

verus! {

/// The pack that a path below the chunks stands for: the chunk in decimal, a
/// slash, the pack in sixteen characters of hexadecimal, and ".pack".
pub open spec fn pack_at(rel: Seq<char>) -> Option<PackRef> {
    let slash = before_char(rel, '/') as int;
    if slash == rel.len() {
        None
    } else {
        match (
            parsed_number(rel.take(slash), 10, u32::MAX as int),
            before_suffix(rel.skip(slash + 1), ".pack"@),
        ) {
            (Some(chunk_idx), Some(hex)) => if hex.len() != 16 {
                None
            } else {
                match parsed_number(hex, 16, u64::MAX as int) {
                    Some(pack_id) => Some((chunk_idx as u32, pack_id as u64)),
                    None => None,
                }
            },
            _ => None,
        }
    }
}

/// Parse a pack path relative to the chunks prefix.
/// Returns `(chunk_idx, pack_id)` or None if the path doesn't match.
pub fn parse_pack_path(rel: &str) -> (pack: Option<PackRef>)
    ensures
        pack == pack_at(rel@),
{
    let chars: Vec<char> = chars_of(rel);
    let slash: usize = find_char(&chars, '/');
    if slash == chars.len() {
        return None;
    }
    assert(chars@.subrange(0, slash as int) =~= rel@.take(slash as int));
    let chunk_idx: u64 = match parse_number(&chars, 0, slash, 10, u32::MAX as u64) {
        Some(n) => n,
        None => {
            return None;
        },
    };
    let filename: String = text_between(&chars, slash + 1, chars.len());
    assert(filename@ =~= rel@.skip(slash + 1));
    let hex: String = match strip_suffix(filename.as_str(), ".pack") {
        Some(hex) => hex,
        None => {
            return None;
        },
    };
    let hex_chars: Vec<char> = chars_of(hex.as_str());
    if hex_chars.len() != 16 {
        return None;
    }
    assert(hex_chars@.subrange(0, 16) =~= hex@);
    match parse_number(&hex_chars, 0, 16, 16, u64::MAX) {
        Some(pack_id) => Some((chunk_idx as u32, pack_id)),
        None => None,
    }
}

/// The path of a pack names the pack: it is the key of the pack and ".pack", and
/// reads back as the pack.
pub proof fn law_pack_path_round_trip(p: PackRef)
    ensures
        pack_at(pack_key_text(p.0, p.1) + ".pack"@) == Some(p),
{
    let chunk = decimal4(p.0 as int);
    let hex = hex16(p.1 as int);
    let rel = pack_key_text(p.0, p.1) + ".pack"@;
    lemma_decimal4_value(p.0 as int);
    lemma_hex16_value(p.1 as int);
    lemma_value_digits(chunk, 10);
    lemma_value_digits(hex, 16);
    let n = chunk.len() as int;
    assert forall|i: int| 0 <= i < n implies #[trigger] rel[i] != '/' by {
        assert(rel[i] == chunk[i]);
        assert(digit_value(chunk[i], 10) is Some);
    }
    lemma_is_before_char(rel, '/', n);
    assert(rel.take(n) =~= chunk);
    assert(digit_value(chunk[0], 10) is Some && chunk[0] != '+');
    let filename = rel.skip(n + 1);
    assert(filename =~= hex + ".pack"@);
    assert(".pack"@.is_suffix_of(filename));
    assert(filename.take(filename.len() - ".pack"@.len()) =~= hex);
    assert(digit_value(hex[0], 16) is Some && hex[0] != '+');
}

/// Two packs have the same key only if they are the same.
pub proof fn law_pack_keys_are_distinct(p: PackRef, q: PackRef)
    requires
        pack_key_text(p.0, p.1) == pack_key_text(q.0, q.1),
    ensures
        p == q,
{
    law_pack_path_round_trip(p);
    law_pack_path_round_trip(q);
}

/// The hex form of an OCI digest.
pub open spec fn hex_of_digest(digest: Seq<char>) -> Seq<char> {
    match behind_prefix(digest, "sha256:"@) {
        Some(hex) => hex,
        None => digest,
    }
}

/// Normalize an OCI digest to its hex form (the `layers/{hex}` path segment).
pub fn digest_hex(digest: &str) -> (hex: String)
    ensures
        hex@ == hex_of_digest(digest@),
{
    match strip_prefix(digest, "sha256:") {
        Some(hex) => hex,
        None => String::from_str(digest),
    }
}

/// The directory `name` of a database: its path without slashes at the end, and
/// the name between slashes.
pub open spec fn directory_text(db_path: Seq<char>, name: Seq<char>) -> Seq<char> {
    trimmed_end(db_path, '/').push('/') + name.push('/')
}

fn directory(db_path: &str, name: &str) -> (prefix: String)
    ensures
        prefix@ == directory_text(db_path@, name@),
{
    let mut prefix: String = trim_end_char(db_path, '/');
    prefix.push('/');
    prefix.append(name);
    prefix.push('/');
    assert(prefix@ =~= directory_text(db_path@, name@));
    prefix
}

/// Where the exports of a database stand.
pub fn exports_prefix(db_path: &str) -> (prefix: String)
    ensures
        prefix@ == directory_text(db_path@, "exports"@),
{
    directory(db_path, "exports")
}

/// Where the layers of a database stand.
pub fn layers_prefix(db_path: &str) -> (prefix: String)
    ensures
        prefix@ == directory_text(db_path@, "layers"@),
{
    directory(db_path, "layers")
}

/// Where the objects of one layer stand.
pub fn layer_prefix(db_path: &str, digest_hex: &str) -> (prefix: String)
    ensures
        prefix@ == directory_text(db_path@, "layers"@) + digest_hex@.push('/'),
{
    let mut prefix: String = directory(db_path, "layers");
    prefix.append(digest_hex);
    prefix.push('/');
    assert(prefix@ =~= directory_text(db_path@, "layers"@) + digest_hex@.push('/'));
    prefix
}

/// The first part of a path below a directory, if the path goes on behind it.
pub open spec fn first_part(path: Seq<char>, prefix: Seq<char>) -> Option<Seq<char>> {
    match behind_prefix(path, prefix) {
        Some(rel) => {
            let slash = before_char(rel, '/') as int;
            if slash < rel.len() {
                Some(rel.take(slash))
            } else {
                None
            }
        },
        None => None,
    }
}

/// The layer that an object belongs to.
pub fn layer_of_path(path: &str, prefix: &str) -> (digest: Option<String>)
    ensures
        same_option(digest, first_part(path@, prefix@)),
{
    match strip_prefix(path, prefix) {
        Some(rel) => {
            let chars: Vec<char> = chars_of(rel.as_str());
            let slash: usize = find_char(&chars, '/');
            if slash < chars.len() {
                let part: String = text_between(&chars, 0, slash);
                assert(part@ =~= rel@.take(slash as int));
                Some(part)
            } else {
                None
            }
        },
        None => None,
    }
}

/// The name of the manifest at a path; nothing for the directory itself and for
/// boot and hot sets beside the manifests.
pub open spec fn manifest_at(path: Seq<char>, prefix: Seq<char>) -> Option<Seq<char>> {
    match behind_prefix(path, prefix) {
        Some(rel) => if rel.len() == 0 || ".boot-set"@.is_suffix_of(rel)
            || ".hot-set"@.is_suffix_of(rel) {
            None
        } else {
            Some(rel)
        },
        None => None,
    }
}

/// The name of the manifest at a path.
pub fn manifest_name(path: &str, prefix: &str) -> (name: Option<String>)
    ensures
        same_option(name, manifest_at(path@, prefix@)),
{
    match strip_prefix(path, prefix) {
        Some(rel) => {
            if rel.as_str().unicode_len() == 0 || strip_suffix(
                rel.as_str(),
                ".boot-set",
            ).is_some() || strip_suffix(rel.as_str(), ".hot-set").is_some() {
                None
            } else {
                Some(rel)
            }
        },
        None => None,
    }
}

/// Characters with the Unicode property White_Space.
pub open spec fn white_space(c: char) -> bool {
    let n = c as int;
    0x9 <= n <= 0xD || n == 0x20 || n == 0x85 || n == 0xA0 || n == 0x1680 || 0x2000 <= n <= 0x200A
        || n == 0x2028 || n == 0x2029 || n == 0x202F || n == 0x205F || n == 0x3000
}

fn is_white_space(c: char) -> (yes: bool)
    ensures
        yes == white_space(c),
{
    let n: u32 = c as u32;
    (0x9 <= n && n <= 0xD) || n == 0x20 || n == 0x85 || n == 0xA0 || n == 0x1680 || (0x2000 <= n
        && n <= 0x200A) || n == 0x2028 || n == 0x2029 || n == 0x202F || n == 0x205F || n == 0x3000
}

/// Where a text starts when white space in front of it is left out.
pub open spec fn text_start(s: Seq<char>) -> nat
    decreases s.len(),
{
    if s.len() > 0 && white_space(s[0]) {
        1 + text_start(s.skip(1))
    } else {
        0
    }
}

/// Where a text ends when white space behind it is left out.
pub open spec fn text_end(s: Seq<char>) -> nat
    decreases s.len(),
{
    if s.len() > 0 && white_space(s.last()) {
        text_end(s.drop_last())
    } else {
        s.len()
    }
}

/// A text without white space around it.
pub open spec fn trimmed(s: Seq<char>) -> Seq<char> {
    let rest = s.skip(text_start(s) as int);
    rest.take(text_end(rest) as int)
}

fn trim(text: &str) -> (chars: Vec<char>)
    ensures
        chars@ == trimmed(text@),
{
    let all: Vec<char> = chars_of(text);
    let mut from: usize = 0;
    assert(all@.skip(0) =~= all@);
    while from < all.len() && is_white_space(all[from])
        invariant
            from <= all@.len(),
            text_start(all@) == from + text_start(all@.skip(from as int)),
        decreases all@.len() - from,
    {
        assert(all@.skip(from as int).skip(1) =~= all@.skip(from + 1));
        from = from + 1;
    }
    let ghost rest = all@.skip(from as int);
    let mut to: usize = all.len();
    assert(rest.take(to - from) =~= rest);
    while to > from && is_white_space(all[to - 1])
        invariant
            from <= to <= all@.len(),
            rest == all@.skip(from as int),
            text_end(rest) == text_end(rest.take(to - from)),
        decreases to,
    {
        assert(rest.take(to - from).drop_last() =~= rest.take(to - 1 - from));
        to = to - 1;
    }
    let mut chars: Vec<char> = Vec::new();
    let mut i: usize = from;
    while i < to
        invariant
            from <= i <= to <= all@.len(),
            chars@ == all@.subrange(from as int, i as int),
        decreases to - i,
    {
        chars.push(all[i]);
        i = i + 1;
        assert(chars@ =~= all@.subrange(from as int, i as int));
    }
    assert(chars@ =~= rest.take(to - from));
    chars
}

/// Why a text is no duration.
#[derive(Debug)]
pub enum DurationError {
    /// What precedes the suffix is no number.
    InvalidNumber(String),
    /// The text has none of the suffixes.
    InvalidSuffix(String),
}

/// The text of the error for a text without a suffix.
pub open spec fn invalid_suffix_text(s: Seq<char>) -> Seq<char> {
    "invalid duration '"@ + s + "': use suffix h/m/s/d (e.g. '24h')"@
}

/// The text of the error for a text without a suffix.
pub fn invalid_suffix_message(s: &str) -> (text: String)
    ensures
        text@ == invalid_suffix_text(s@),
{
    let mut text = String::from_str("invalid duration '");
    text.append(s);
    text.append("': use suffix h/m/s/d (e.g. '24h')");
    text
}

/// Seconds per unit of a suffix; zero if it is none.
pub open spec fn unit_secs(suffix: char) -> int {
    if suffix == 'h' {
        3600
    } else if suffix == 'm' {
        60
    } else if suffix == 'd' {
        86400
    } else if suffix == 's' {
        1
    } else {
        0
    }
}

/// Whether a text ends in one of the suffixes.
pub open spec fn has_unit(s: Seq<char>) -> bool {
    s.len() > 0 && unit_secs(s.last()) > 0
}

/// The number in front of the suffix.
pub open spec fn unit_count(s: Seq<char>) -> Option<int> {
    parsed_number(s.drop_last(), 10, u64::MAX as int)
}

/// Whether the duration that a text stands for fits in 64 bits of seconds.
pub open spec fn duration_fits(s: Seq<char>) -> bool {
    let t = trimmed(s);
    has_unit(t) && unit_count(t) is Some ==> unit_count(t)->Some_0 * unit_secs(t.last())
        <= u64::MAX
}

fn unit_of(suffix: char) -> (secs: u64)
    ensures
        secs == unit_secs(suffix),
{
    if suffix == 'h' {
        3600
    } else if suffix == 'm' {
        60
    } else if suffix == 'd' {
        86400
    } else if suffix == 's' {
        1
    } else {
        0
    }
}

/// Tests whether `parse_duration` can be asked about a text.
pub fn is_duration_in_range(s: &str) -> (fits: bool)
    ensures
        fits == duration_fits(s@),
{
    let chars: Vec<char> = trim(s);
    if chars.len() == 0 {
        return true;
    }
    let unit: u64 = unit_of(chars[chars.len() - 1]);
    if unit == 0 {
        return true;
    }
    assert(chars@.subrange(0, chars@.len() - 1) =~= chars@.drop_last());
    match parse_number(&chars, 0, chars.len() - 1, 10, u64::MAX) {
        Some(n) => n.checked_mul(unit).is_some(),
        None => true,
    }
}

/// Parse a human-friendly duration string like "24h", "1h", "30m", "7d".
pub fn parse_duration(s: &str) -> (duration: Result<Duration, DurationError>)
    requires
        duration_fits(s@),
    ensures
        match duration {
            Ok(d) => has_unit(trimmed(s@)) && unit_count(trimmed(s@)) is Some && d == (Duration {
                secs: (unit_count(trimmed(s@))->Some_0 * unit_secs(trimmed(s@).last())) as u64,
                nanos: 0,
            }),
            Err(DurationError::InvalidNumber(text)) => has_unit(trimmed(s@)) && unit_count(
                trimmed(s@),
            ) is None && text@ == trimmed(s@).drop_last(),
            Err(DurationError::InvalidSuffix(text)) => !has_unit(trimmed(s@)) && text@ == trimmed(
                s@,
            ),
        },
{
    let chars: Vec<char> = trim(s);
    let unit: u64 = if chars.len() > 0 {
        unit_of(chars[chars.len() - 1])
    } else {
        0
    };
    if unit == 0 {
        let text: String = text_between(&chars, 0, chars.len());
        assert(text@ =~= chars@);
        return Err(DurationError::InvalidSuffix(text));
    }
    assert(chars@.subrange(0, chars@.len() - 1) =~= chars@.drop_last());
    match parse_number(&chars, 0, chars.len() - 1, 10, u64::MAX) {
        Some(n) => Ok(Duration::from_secs(n * unit)),
        None => Err(DurationError::InvalidNumber(text_between(&chars, 0, chars.len() - 1))),
    }
}

/// A path is that of a pack exactly if it is a number, a slash, sixteen characters
/// that are a number in hexadecimal, and ".pack", and it names the pack with these
/// numbers.
pub proof fn law_pack_paths(rel: Seq<char>, p: PackRef)
    ensures
        pack_at(rel) == Some(p) <==> exists|chunk: Seq<char>, hex: Seq<char>|
            #![trigger parsed_number(chunk, 10, 0xFFFF_FFFF), parsed_number(hex, 16, 0xFFFF_FFFF_FFFF_FFFF)]
            {
                &&& rel == chunk.push('/') + hex + ".pack"@
                &&& !chunk.contains('/')
                &&& hex.len() == 16
                &&& parsed_number(chunk, 10, 0xFFFF_FFFF) == Some(p.0 as int)
                &&& parsed_number(hex, 16, 0xFFFF_FFFF_FFFF_FFFF) == Some(p.1 as int)
            },
{
    let slash = before_char(rel, '/') as int;
    lemma_before_char(rel, '/');
    if pack_at(rel) == Some(p) {
        let chunk = rel.take(slash);
        let name = rel.skip(slash + 1);
        let hex = name.take(name.len() - ".pack"@.len());
        assert(rel =~= chunk.push('/') + name);
        assert(name =~= hex + ".pack"@);
        assert(rel =~= chunk.push('/') + hex + ".pack"@);
        assert(!chunk.contains('/')) by {
            if chunk.contains('/') {
                let i = choose|i: int| 0 <= i < chunk.len() && chunk[i] == '/';
                assert(rel[i] == '/');
            }
        }
        lemma_parsed_bound(chunk, 10, 0xFFFF_FFFF);
        lemma_parsed_bound(hex, 16, 0xFFFF_FFFF_FFFF_FFFF);
        assert(parsed_number(chunk, 10, 0xFFFF_FFFF) == Some(p.0 as int));
        assert(parsed_number(hex, 16, 0xFFFF_FFFF_FFFF_FFFF) == Some(p.1 as int));
    }
    if exists|chunk: Seq<char>, hex: Seq<char>|
        #![trigger parsed_number(chunk, 10, 0xFFFF_FFFF), parsed_number(hex, 16, 0xFFFF_FFFF_FFFF_FFFF)]
        {
            &&& rel == chunk.push('/') + hex + ".pack"@
            &&& !chunk.contains('/')
            &&& hex.len() == 16
            &&& parsed_number(chunk, 10, 0xFFFF_FFFF) == Some(p.0 as int)
            &&& parsed_number(hex, 16, 0xFFFF_FFFF_FFFF_FFFF) == Some(p.1 as int)
        } {
        let (chunk, hex) = choose|chunk: Seq<char>, hex: Seq<char>|
            #![trigger parsed_number(chunk, 10, 0xFFFF_FFFF), parsed_number(hex, 16, 0xFFFF_FFFF_FFFF_FFFF)]
            {
                &&& rel == chunk.push('/') + hex + ".pack"@
                &&& !chunk.contains('/')
                &&& hex.len() == 16
                &&& parsed_number(chunk, 10, 0xFFFF_FFFF) == Some(p.0 as int)
                &&& parsed_number(hex, 16, 0xFFFF_FFFF_FFFF_FFFF) == Some(p.1 as int)
            };
        let n = chunk.len() as int;
        assert forall|i: int| 0 <= i < n implies #[trigger] rel[i] != '/' by {
            assert(rel[i] == chunk[i]);
            assert(chunk.contains(chunk[i]));
        }
        assert(rel[n] == '/');
        lemma_is_before_char(rel, '/', n);
        assert(rel.take(n) =~= chunk);
        let name = rel.skip(n + 1);
        assert(name =~= hex + ".pack"@);
        assert(".pack"@.is_suffix_of(name));
        assert(name.take(name.len() - ".pack"@.len()) =~= hex);
    }
}

proof fn lemma_parsed_bound(s: Seq<char>, base: int, max: int)
    requires
        base > 0,
    ensures
        parsed_number(s, base, max) matches Some(n) ==> 0 <= n <= max,
{
    if parsed_number(s, base, max) is Some {
        let digits = if s.len() > 0 && s[0] == '+' {
            s.skip(1)
        } else {
            s
        };
        lemma_value_is_natural(digits, base);
    }
}

proof fn lemma_value_is_natural(s: Seq<char>, base: int)
    requires
        base > 0,
    ensures
        digits_value(s, base) matches Some(n) ==> n >= 0,
    decreases s.len(),
{
    if s.len() > 0 {
        lemma_value_is_natural(s.drop_last(), base);
        if digits_value(s, base) is Some {
            let high = digits_value(s.drop_last(), base)->Some_0;
            assert(high * base >= 0) by (nonlinear_arith)
                requires
                    high >= 0,
                    base > 0,
            ;
        }
    }
}

/// A digest with the prefix "sha256:" and the same digest without it have the same
/// hex form, which is the latter; any other text is its own hex form.
pub proof fn law_digest_hex(digest: Seq<char>)
    ensures
        hex_of_digest("sha256:"@ + digest) == digest,
        !"sha256:"@.is_prefix_of(digest) ==> hex_of_digest(digest) == digest,
{
    let whole = "sha256:"@ + digest;
    assert("sha256:"@.is_prefix_of(whole)) by {
        assert(whole.subrange(0, "sha256:"@.len() as int) =~= "sha256:"@);
    }
    assert(whole.skip("sha256:"@.len() as int) =~= digest);
}

/// The first part of a path below a directory is what stands between the directory
/// and the next slash.
pub proof fn law_first_part(prefix: Seq<char>, part: Seq<char>, rest: Seq<char>)
    requires
        !part.contains('/'),
    ensures
        first_part(prefix + part.push('/') + rest, prefix) == Some(part),
        first_part(prefix + part, prefix) is None,
{
    let path = prefix + part.push('/') + rest;
    let n = part.len() as int;
    assert(path.subrange(0, prefix.len() as int) =~= prefix);
    let rel = path.skip(prefix.len() as int);
    assert(rel =~= part.push('/') + rest);
    assert forall|i: int| 0 <= i < n implies #[trigger] rel[i] != '/' by {
        assert(rel[i] == part[i]);
        assert(part.contains(part[i]));
    }
    assert(rel[n] == '/');
    lemma_is_before_char(rel, '/', n);
    assert(rel.take(n) =~= part);
    let file = prefix + part;
    assert(file.subrange(0, prefix.len() as int) =~= prefix);
    assert(file.skip(prefix.len() as int) =~= part);
    assert forall|i: int| 0 <= i < n implies #[trigger] part[i] != '/' by {
        assert(part.contains(part[i]));
    }
    lemma_is_before_char(part, '/', n);
}

/// A path with a first part starts with the directory, the part and a slash, and
/// the part has no slash.
pub proof fn law_part_is_in_path(path: Seq<char>, prefix: Seq<char>)
    ensures
        first_part(path, prefix) matches Some(part) ==> (prefix + part.push('/')).is_prefix_of(path)
            && !part.contains('/'),
{
    if let Some(part) = first_part(path, prefix) {
        let rel = path.skip(prefix.len() as int);
        lemma_before_char(rel, '/');
        let whole = prefix + part.push('/');
        assert(path.subrange(0, prefix.len() as int) =~= prefix);
        assert forall|i: int| 0 <= i < whole.len() implies whole[i] == path[i] by {
            if i < prefix.len() {
                assert(path.subrange(0, prefix.len() as int)[i] == prefix[i]);
            } else {
                assert(rel[i - prefix.len()] == path[i]);
            }
        }
        assert(path.subrange(0, whole.len() as int) =~= whole);
        if part.contains('/') {
            let i = choose|i: int| 0 <= i < part.len() && part[i] == '/';
            assert(rel[i] == '/');
        }
    }
}

/// A trimmed text is what is left when white space is taken off both ends.
pub proof fn law_white_space_is_taken_off(before: Seq<char>, text: Seq<char>, after: Seq<char>)
    requires
        forall|i: int| 0 <= i < before.len() ==> white_space(#[trigger] before[i]),
        forall|i: int| 0 <= i < after.len() ==> white_space(#[trigger] after[i]),
        text.len() > 0 ==> !white_space(text[0]) && !white_space(text.last()),
    ensures
        trimmed(before + text + after) == text,
    decreases before.len() + after.len(),
{
    let all = before + text + after;
    if text.len() == 0 {
        assert(all =~= before + after);
        lemma_all_white(all);
        assert(trimmed(all) =~= text);
    } else {
        lemma_text_start(before, text + after);
        assert(all =~= before + (text + after));
        let rest = all.skip(before.len() as int);
        assert(rest =~= text + after);
        lemma_text_end(text, after);
        assert(rest.take(text.len() as int) =~= text);
    }
}

proof fn lemma_all_white(s: Seq<char>)
    requires
        forall|i: int| 0 <= i < s.len() ==> white_space(#[trigger] s[i]),
    ensures
        text_start(s) == s.len(),
    decreases s.len(),
{
    if s.len() > 0 {
        lemma_all_white(s.skip(1));
    }
}

proof fn lemma_text_start(before: Seq<char>, rest: Seq<char>)
    requires
        forall|i: int| 0 <= i < before.len() ==> white_space(#[trigger] before[i]),
        rest.len() > 0,
        !white_space(rest[0]),
    ensures
        text_start(before + rest) == before.len(),
    decreases before.len(),
{
    if before.len() > 0 {
        lemma_text_start(before.skip(1), rest);
        assert((before + rest).skip(1) =~= before.skip(1) + rest);
        assert((before + rest)[0] == before[0]);
    } else {
        assert(before + rest =~= rest);
    }
}

proof fn lemma_text_end(text: Seq<char>, after: Seq<char>)
    requires
        forall|i: int| 0 <= i < after.len() ==> white_space(#[trigger] after[i]),
        text.len() > 0,
        !white_space(text.last()),
    ensures
        text_end(text + after) == text.len(),
    decreases after.len(),
{
    if after.len() > 0 {
        lemma_text_end(text, after.drop_last());
        assert((text + after).drop_last() =~= text + after.drop_last());
        assert((text + after).last() == after.last());
    } else {
        assert(text + after =~= text);
    }
}

/// A number and a suffix are a duration of so many hours, minutes, seconds or days,
/// whatever blanks stand around them.
pub proof fn law_durations_are_read(
    s: &str,
    duration: Result<Duration, DurationError>,
    before: Seq<char>,
    n: u64,
    suffix: char,
    after: Seq<char>,
)
    requires
        call_ensures(parse_duration, (s,), duration),
        s@ == before + decimal(n as int).push(suffix) + after,
        forall|i: int| 0 <= i < before.len() ==> #[trigger] before[i] == ' ',
        forall|i: int| 0 <= i < after.len() ==> #[trigger] after[i] == ' ' || after[i] == '\n',
        suffix == 'm' ==> n * 60 <= u64::MAX,
        suffix == 'h' ==> n * 3600 <= u64::MAX,
        suffix == 'd' ==> n * 86_400 <= u64::MAX,
    ensures
        suffix == 's' ==> duration == Ok::<Duration, DurationError>(
            (Duration { secs: n, nanos: 0 }),
        ),
        suffix == 'm' ==> duration == Ok::<Duration, DurationError>(
            (Duration { secs: (n * 60) as u64, nanos: 0 }),
        ),
        suffix == 'h' ==> duration == Ok::<Duration, DurationError>(
            (Duration { secs: (n * 3600) as u64, nanos: 0 }),
        ),
        suffix == 'd' ==> duration == Ok::<Duration, DurationError>(
            (Duration { secs: (n * 86_400) as u64, nanos: 0 }),
        ),
        suffix != 's' && suffix != 'm' && suffix != 'h' && suffix != 'd' && !white_space(suffix)
            ==> duration matches Err(DurationError::InvalidSuffix(_)),
{
    let text = decimal(n as int).push(suffix);
    law_decimal_reads_back(n as int, u64::MAX as int);
    assert(text.drop_last() =~= decimal(n as int));
    assert(text[0] == decimal(n as int)[0]);
    if !white_space(suffix) {
        law_white_space_is_taken_off(before, text, after);
    }
}

/// A directory of a database lies directly below its path, however many slashes
/// end the path. Directories of different names differ, and none lies in another.
pub proof fn law_directories(db_path: Seq<char>, name: Seq<char>, other: Seq<char>)
    ensures
        directory_text(db_path.push('/'), name) == directory_text(db_path, name),
        db_path.len() == 0 || db_path.last() != '/' ==> directory_text(db_path, name) == db_path
            + seq!['/'] + name + seq!['/'],
        name != other && !name.contains('/') && !other.contains('/') ==> !directory_text(
            db_path,
            name,
        ).is_prefix_of(directory_text(db_path, other)),
{
    assert(db_path.push('/').drop_last() =~= db_path);
    assert(directory_text(db_path.push('/'), name) == directory_text(db_path, name));
    if db_path.len() == 0 || db_path.last() != '/' {
        assert(directory_text(db_path, name) =~= db_path + seq!['/'] + name + seq!['/']);
    }
    let t = trimmed_end(db_path, '/').push('/');
    let a = directory_text(db_path, name);
    let b = directory_text(db_path, other);
    if name != other && !name.contains('/') && !other.contains('/') && a.is_prefix_of(b) {
        assert forall|i: int| 0 <= i < a.len() implies a[i] == b[i] by {
            assert(b.subrange(0, a.len() as int)[i] == b[i]);
        }
        let n = name.len() as int;
        assert(a[t.len() + n] == '/');
        if n < other.len() {
            assert(b[t.len() + n] == other[n]);
            assert(other.contains(other[n]));
        }
        assert(n == other.len());
        assert forall|i: int| 0 <= i < n implies name[i] == other[i] by {
            assert(a[t.len() + i] == name[i]);
            assert(b[t.len() + i] == other[i]);
        }
        assert(name =~= other);
    }
}

/// What is listed in a directory is a manifest unless it is a boot set or a hot
/// set.
pub proof fn law_manifests_are_named(prefix: Seq<char>, name: Seq<char>)
    ensures
        manifest_at(prefix, prefix) is None,
        manifest_at(prefix + name + ".boot-set"@, prefix) is None,
        manifest_at(prefix + name + ".hot-set"@, prefix) is None,
        name.len() > 0 && !".boot-set"@.is_suffix_of(name) && !".hot-set"@.is_suffix_of(name)
            ==> manifest_at(prefix + name, prefix) == Some(name),
        forall|path: Seq<char>| #[trigger]
            manifest_at(path, prefix) is Some ==> path == prefix + manifest_at(path, prefix)->Some_0,
{
    assert(prefix.skip(prefix.len() as int) =~= Seq::empty());
    let boot = prefix + name + ".boot-set"@;
    assert(boot.subrange(0, prefix.len() as int) =~= prefix);
    let rel = boot.skip(prefix.len() as int);
    assert(rel =~= name + ".boot-set"@);
    assert(rel.subrange(name.len() as int, rel.len() as int) =~= ".boot-set"@);
    let hot = prefix + name + ".hot-set"@;
    assert(hot.subrange(0, prefix.len() as int) =~= prefix);
    let rel = hot.skip(prefix.len() as int);
    assert(rel =~= name + ".hot-set"@);
    assert(rel.subrange(name.len() as int, rel.len() as int) =~= ".hot-set"@);
    let path = prefix + name;
    assert(path.subrange(0, prefix.len() as int) =~= prefix);
    assert(path.skip(prefix.len() as int) =~= name);
    assert forall|path: Seq<char>| #[trigger] manifest_at(path, prefix) is Some implies path
        == prefix + manifest_at(path, prefix)->Some_0 by {
        assert(path.subrange(0, prefix.len() as int) =~= prefix);
        assert(path =~= path.subrange(0, prefix.len() as int) + path.skip(prefix.len() as int));
    }
}

/// The objects of a layer lie in a directory of its own below the layers of the database, where
/// its digest is read back from their paths.
pub proof fn law_layer_directories(
    db_path: &str,
    digest_hex: &str,
    prefix: String,
    layers: String,
    rest: Seq<char>,
)
    requires
        call_ensures(layer_prefix, (db_path, digest_hex), prefix),
        call_ensures(layers_prefix, (db_path,), layers),
        !digest_hex@.contains('/'),
    ensures
        prefix@ == layers@ + digest_hex@.push('/'),
        layers@ == directory_text(db_path@, "layers"@),
        first_part(prefix@ + rest, layers@) == Some(digest_hex@),
{
    law_first_part(layers@, digest_hex@, rest);
    assert(prefix@ + rest =~= layers@ + digest_hex@.push('/') + rest);
}

/// A number and a suffix are in range exactly if so many units are in 64 bits of seconds.
pub proof fn law_durations_in_range(s: &str, fits: bool, n: u64, suffix: char)
    requires
        call_ensures(is_duration_in_range, (s,), fits),
        s@ == decimal(n as int).push(suffix),
    ensures
        suffix == 's' ==> fits,
        suffix == 'm' ==> (fits <==> n * 60 <= 0xFFFF_FFFF_FFFF_FFFF),
        suffix == 'h' ==> (fits <==> n * 3600 <= 0xFFFF_FFFF_FFFF_FFFF),
        suffix == 'd' ==> (fits <==> n * 86_400 <= 0xFFFF_FFFF_FFFF_FFFF),
{
    let text = s@;
    law_decimal_reads_back(n as int, u64::MAX as int);
    assert(text.drop_last() =~= decimal(n as int));
    assert(text[0] == decimal(n as int)[0]);
    if !white_space(suffix) {
        law_white_space_is_taken_off(Seq::empty(), text, Seq::empty());
        assert(Seq::<char>::empty() + text + Seq::<char>::empty() =~= text);
    }
}

/// The text for a duration without a suffix names the duration.
pub proof fn law_suffix_message(s: &str, text: String)
    requires
        call_ensures(invalid_suffix_message, (s,), text),
    ensures
        text@ == "invalid duration '"@ + s@ + "': use suffix h/m/s/d (e.g. '24h')"@,
{
}

/// The characters that count as blanks: those with the Unicode property White_Space, and no others.
pub proof fn law_blanks(c: char)
    ensures
        white_space(c) <==> c == '\t' || c == '\n' || c == '\u{b}' || c == '\u{c}' || c == '\r' || c == ' '
            || c == '\u{85}' || c == '\u{a0}' || c == '\u{1680}' || ('\u{2000}' <= c && c <= '\u{200a}')
            || c == '\u{2028}' || c == '\u{2029}' || c == '\u{202f}' || c == '\u{205f}' || c
            == '\u{3000}',
{
}

/// The key of a pack: four digits for the chunk, more if it needs them, a slash, and sixteen
/// digits for the pack; the digits give the numbers back.
pub proof fn law_pack_key_layout(chunk_idx: u32, pack_id: u64)
    ensures
        ({
            let key = pack_key_text(chunk_idx, pack_id);
            let n = key.len() - 17;
            &&& n >= 4
            &&& chunk_idx < 10_000 ==> n == 4
            &&& key[n] == '/'
            &&& digits_value(key.subrange(0, n), 10) == Some(chunk_idx as int)
            &&& digits_value(key.subrange(n + 1, n + 17), 16) == Some(pack_id as int)
        }),
{
    let key = pack_key_text(chunk_idx, pack_id);
    let chunk = decimal4(chunk_idx as int);
    lemma_decimal4_value(chunk_idx as int);
    lemma_hex16_value(pack_id as int);
    if chunk_idx < 10_000 {
        crate::text::lemma_fixed_digits_value(chunk_idx as int, 10, 4);
    } else {
        lemma_many_digits(chunk_idx as int);
    }
    let n = key.len() - 17;
    assert(key.subrange(0, n) =~= chunk);
    assert(key.subrange(n + 1, n + 17) =~= hex16(pack_id as int));
}

proof fn lemma_many_digits(n: int)
    requires
        n >= 10_000,
    ensures
        decimal(n).len() >= 4,
{
    assert(decimal(n).len() == decimal(n / 10).len() + 1);
    assert(decimal(n / 10).len() == decimal(n / 10 / 10).len() + 1);
    assert(decimal(n / 10 / 10).len() == decimal(n / 10 / 10 / 10).len() + 1);
    crate::text::lemma_decimal_value(n / 10 / 10 / 10);
}

/// The manifest and the layer that a path belongs to are told by what stands behind the directory.
pub proof fn law_paths_are_told(
    path: &str,
    prefix: &str,
    name: Option<String>,
    digest: Option<String>,
    rel: Seq<char>,
)
    requires
        call_ensures(manifest_name, (path, prefix), name),
        call_ensures(layer_of_path, (path, prefix), digest),
        path@ == prefix@ + rel,
    ensures
        name is Some <==> rel.len() > 0 && !".boot-set"@.is_suffix_of(rel) && !".hot-set"@.is_suffix_of(
            rel,
        ),
        name matches Some(n) ==> n@ == rel,
        digest is Some <==> rel.contains('/'),
        digest matches Some(d) ==> d@.push('/').is_prefix_of(rel) && !d@.contains('/'),
{
    let whole = prefix@ + rel;
    assert(whole.subrange(0, prefix@.len() as int) =~= prefix@);
    assert(whole.skip(prefix@.len() as int) =~= rel);
    lemma_before_char(rel, '/');
    let n = before_char(rel, '/') as int;
    if n < rel.len() {
        assert(rel.contains(rel[n]));
        let part = rel.take(n);
        assert(part.push('/') =~= rel.subrange(0, n + 1));
        if part.contains('/') {
            let i = choose|i: int| 0 <= i < part.len() && part[i] == '/';
            assert(rel[i] == '/');
        }
    } else if rel.contains('/') {
        let i = choose|i: int| 0 <= i < rel.len() && rel[i] == '/';
        assert(rel[i] != '/');
    }
}

/// The exports of a database lie in its directory of that name.
pub proof fn law_exports_directory(db_path: &str, prefix: String, base: Seq<char>)
    requires
        call_ensures(exports_prefix, (db_path,), prefix),
        db_path@ == base || db_path@ == base.push('/'),
        base.len() > 0 && base.last() != '/',
    ensures
        prefix@ == base + "/exports/"@,
{
    law_directories(base, "exports"@, "exports"@);
    reveal_strlit("exports");
    reveal_strlit("/exports/");
    assert(base + seq!['/'] + "exports"@ + seq!['/'] =~= base + "/exports/"@);
}

/// What precedes a suffix and is no number is reported, without the suffix; a text without a
/// suffix is reported whole.
pub proof fn law_bad_durations(s: &str, duration: Result<Duration, DurationError>, t: Seq<char>, suffix: char)
    requires
        call_ensures(parse_duration, (s,), duration),
        s@ == t.push(suffix),
        t.len() > 0 ==> !white_space(t[0]),
        !white_space(suffix),
        parsed_number(t, 10, 0xFFFF_FFFF_FFFF_FFFF) is None,
    ensures
        suffix == 's' || suffix == 'm' || suffix == 'h' || suffix == 'd' ==> duration is Err
            && duration->Err_0 is InvalidNumber && duration->Err_0->InvalidNumber_0@ == t,
        suffix != 's' && suffix != 'm' && suffix != 'h' && suffix != 'd' ==> duration is Err
            && duration->Err_0 is InvalidSuffix && duration->Err_0->InvalidSuffix_0@ == s@,
{
    law_white_space_is_taken_off(Seq::empty(), s@, Seq::empty());
    assert(Seq::<char>::empty() + s@ + Seq::<char>::empty() =~= s@);
    assert(s@.drop_last() =~= t);
    if t.len() > 0 {
        assert(s@[0] == t[0]);
    }
}

} // verus!
