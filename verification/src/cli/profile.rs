//! Profiling of a base image's boot working set.

use vstd::prelude::*;
use vstd::string::StringExecFns;
use vstd::utf8::{
    decode_utf8, encode_utf8, encode_utf8_decode_utf8, is_char_boundary,
};
use crate::text::{chars_of, text_between};
use crate::time::Duration;

verus! {

/// What the command is asked.
pub struct ProfileArgs {
    pub name: String,
    pub s3_prefix: String,
    pub config: String,
    pub sandbox: Option<String>,
    pub cmd: Option<String>,
    pub timeout: u64,
    pub fs_type: Option<String>,
    pub runs: u32,
    pub force: bool,
    pub untrusted: bool,
    pub max_blocks: usize,
}

/// What a profiling run is to do.
pub struct ProfileSpec {
    pub name: String,
    pub cmd: Option<String>,
    pub seed_paths: Vec<String>,
    pub fs_type: Option<String>,
    pub sandbox: Option<String>,
    pub trusted: bool,
    pub runs: u32,
    pub timeout: Duration,
    pub force: bool,
    pub max_blocks: usize,
}

/// What a profiling run is to do, as it is asked. It gets at least one second.
pub fn profile_spec(args: ProfileArgs) -> (spec: ProfileSpec)
    ensures
        spec.name == args.name,
        spec.cmd == args.cmd,
        spec.seed_paths@.len() == 0,
        spec.fs_type == args.fs_type,
        spec.sandbox == args.sandbox,
        spec.trusted == !args.untrusted,
        spec.runs == args.runs,
        spec.timeout == (Duration {
            secs: if args.timeout < 1 {
                1
            } else {
                args.timeout
            },
            nanos: 0,
        }),
        spec.force == args.force,
        spec.max_blocks == args.max_blocks,
{
    let secs: u64 = if args.timeout < 1 {
        1
    } else {
        args.timeout
    };
    ProfileSpec {
        name: args.name,
        cmd: args.cmd,
        seed_paths: Vec::new(),
        fs_type: args.fs_type,
        sandbox: args.sandbox,
        trusted: !args.untrusted,
        runs: args.runs,
        timeout: Duration::from_secs(secs),
        force: args.force,
        max_blocks: args.max_blocks,
    }
}

/// How many runs are merged: one to three.
pub fn runs_merged(runs: u32) -> (merged: u32)
    ensures
        merged == (if runs < 1 {
            1
        } else if runs > 3 {
            3
        } else {
            runs
        }),
{
    if runs < 1 {
        1
    } else if runs > 3 {
        3
    } else {
        runs
    }
}

/// A text without the quotes in front of it.
pub open spec fn unquoted_start(s: Seq<char>) -> Seq<char>
    decreases s.len(),
{
    if s.len() > 0 && s[0] == '"' {
        unquoted_start(s.skip(1))
    } else {
        s
    }
}

/// A text without the quotes around it.
pub open spec fn unquoted(s: Seq<char>) -> Seq<char> {
    crate::text::trimmed_end(unquoted_start(s), '"')
}

/// The first sixteen bytes of a text and an ellipsis, or the text if it is no
/// longer.
pub open spec fn shortened(t: Seq<char>) -> Seq<char> {
    if encode_utf8(t).len() > 16 {
        decode_utf8(encode_utf8(t).take(16)).push('\u{2026}')
    } else {
        t
    }
}

/// Whether a fingerprint can be cut after sixteen bytes.
pub open spec fn can_shorten(s: Seq<char>) -> bool {
    encode_utf8(unquoted(s)).len() > 16 ==> is_char_boundary(encode_utf8(unquoted(s)), 16)
}

fn unquote(s: &str) -> (t: String)
    ensures
        t@ == unquoted(s@),
{
    let chars: Vec<char> = chars_of(s);
    let mut from: usize = 0;
    assert(chars@.skip(0) =~= chars@);
    while from < chars.len() && chars[from] == '"'
        invariant
            from <= chars@.len(),
            unquoted_start(chars@) == unquoted_start(chars@.skip(from as int)),
        decreases chars@.len() - from,
    {
        assert(chars@.skip(from as int).skip(1) =~= chars@.skip(from + 1));
        from = from + 1;
    }
    let rest: String = text_between(&chars, from, chars.len());
    assert(rest@ =~= chars@.skip(from as int));
    crate::text::trim_end_char(rest.as_str(), '"')
}

/// Tests whether `short` can be asked about a fingerprint.
pub fn is_shortenable(s: &str) -> (can: bool)
    ensures
        can == can_shorten(s@),
{
    let t: String = unquote(s);
    let text: &str = t.as_str();
    text.as_bytes().len() <= 16 || text.is_char_boundary(16)
}

/// Short fingerprint for display.
pub fn short(s: &str) -> (display: String)
    requires
        can_shorten(s@),
    ensures
        display@ == shortened(unquoted(s@)),
{
    let t: String = unquote(s);
    let text: &str = t.as_str();
    if text.as_bytes().len() > 16 {
        let (head, _tail) = text.split_at(16);
        let mut display: String = String::from_str(head);
        proof {
            encode_utf8_decode_utf8(head@);
            assert(encode_utf8(head@) =~= encode_utf8(t@).take(16));
        }
        display.push('\u{2026}');
        display
    } else {
        t
    }
}

/// Quotes are taken off both ends of a text, all of them and nothing else.
pub proof fn law_quotes_are_taken_off(before: Seq<char>, text: Seq<char>, after: Seq<char>)
    requires
        forall|i: int| 0 <= i < before.len() ==> #[trigger] before[i] == '"',
        forall|i: int| 0 <= i < after.len() ==> #[trigger] after[i] == '"',
        text.len() > 0 ==> text[0] != '"' && text.last() != '"',
    ensures
        unquoted(before + text + after) == text,
{
    if text.len() == 0 {
        let all = before + text + after;
        assert forall|i: int| 0 <= i < all.len() implies #[trigger] all[i] == '"' by {}
        assert(all =~= all + Seq::empty());
        lemma_unquoted_start(all, Seq::empty());
        assert(unquoted(all) =~= text);
    } else {
        lemma_unquoted_start(before, text + after);
        assert(before + text + after =~= before + (text + after));
        lemma_trimmed(text, after);
    }
}

proof fn lemma_unquoted_start(before: Seq<char>, rest: Seq<char>)
    requires
        forall|i: int| 0 <= i < before.len() ==> #[trigger] before[i] == '"',
        rest.len() > 0 ==> rest[0] != '"',
    ensures
        unquoted_start(before + rest) == rest,
    decreases before.len(),
{
    if before.len() > 0 {
        lemma_unquoted_start(before.skip(1), rest);
        assert((before + rest).skip(1) =~= before.skip(1) + rest);
        assert((before + rest)[0] == before[0]);
    } else {
        assert(before + rest =~= rest);
    }
}

proof fn lemma_trimmed(text: Seq<char>, after: Seq<char>)
    requires
        forall|i: int| 0 <= i < after.len() ==> #[trigger] after[i] == '"',
        text.len() > 0,
        text.last() != '"',
    ensures
        crate::text::trimmed_end(text + after, '"') == text,
    decreases after.len(),
{
    if after.len() > 0 {
        lemma_trimmed(text, after.drop_last());
        assert((text + after).drop_last() =~= text + after.drop_last());
        assert((text + after).last() == after.last());
    } else {
        assert(text + after =~= text);
    }
}

/// A fingerprint is shown whole if it has up to sixteen bytes; of a longer one the
/// first sixteen are shown, and an ellipsis.
pub proof fn law_short_fingerprint(s: &str, display: String)
    requires
        call_ensures(short, (s,), display),
        can_shorten(s@),
    ensures
        encode_utf8(unquoted(s@)).len() <= 16 ==> display@ == unquoted(s@),
        encode_utf8(unquoted(s@)).len() > 16 ==> display@.len() > 0 && display@.last()
            == '\u{2026}' && encode_utf8(display@.drop_last()) == encode_utf8(unquoted(s@)).take(16),
{
    let t = unquoted(s@);
    if encode_utf8(t).len() > 16 {
        let head = decode_utf8(encode_utf8(t).take(16));
        assert(display@.drop_last() =~= head);
        vstd::utf8::encode_utf8_valid_utf8(t);
        vstd::utf8::valid_utf8_split(encode_utf8(t), 16);
        vstd::utf8::decode_utf8_encode_utf8(encode_utf8(t).take(16));
    }
}

/// At least one run and at most three are merged, and as many as are asked for
/// where that is possible.
pub proof fn law_runs_merged(runs: u32, merged: u32)
    requires
        call_ensures(runs_merged, (runs,), merged),
    ensures
        1 <= merged <= 3,
        1 <= runs <= 3 ==> merged == runs,
        runs > 3 ==> merged == 3,
{
}

/// A profiling run is what was asked for. An image counts as trusted unless it is
/// said not to be, and the run gets the time that was asked for, if that is any.
pub proof fn law_profile_spec(args: ProfileArgs, spec: ProfileSpec)
    requires
        call_ensures(profile_spec, (args,), spec),
    ensures
        spec.trusted != args.untrusted,
        args.timeout > 0 ==> spec.timeout.secs == args.timeout,
        spec.timeout.secs > 0,
        spec.timeout.nanos == 0,
        spec.runs == args.runs && spec.force == args.force && spec.max_blocks == args.max_blocks,
        spec.name == args.name && spec.cmd == args.cmd && spec.fs_type == args.fs_type
            && spec.sandbox == args.sandbox && spec.seed_paths@.len() == 0,
{
}

/// A fingerprint can be shown short exactly if it has up to sixteen bytes or a character starts
/// behind the sixteenth.
pub proof fn law_shortenable(s: &str, can: bool)
    requires
        call_ensures(is_shortenable, (s,), can),
    ensures
        can <==> encode_utf8(unquoted(s@)).len() <= 16 || is_char_boundary(
            encode_utf8(unquoted(s@)),
            16,
        ),
{
}

} // verus!
