use vstd::prelude::*;

use crate::matching::{balanced, depth, lemma_depth_agree, lemma_depth_append, matched_pair, nesting_delta, resolve_from, spec_resolve, unmatched_close_at, unmatched_open_at};
use crate::text::chars_vec;
use crate::token::{token_of_char, tokens_of, BfToken};

verus! {

/// The single parse failure: a loop bracket with no partner, carrying the
/// offending token index.  A loop end with no earlier open start is reported
/// at its own index; a loop start that never closes is reported at the
/// innermost such start.
#[derive(Debug, PartialEq, Eq, Clone, Copy, Structural)]
pub enum BfParserError {
    LoopNotClosed(usize),
}

/// Turns source text into token sequences with resolved loop jump targets.
pub struct BfParser;

/// What parsing a source text returns: the resolved token sequence, or the
/// position of the offending bracket.
pub open spec fn spec_parse(s: Seq<char>) -> Result<Seq<BfToken>, int> {
    spec_resolve(tokens_of(s))
}

/// Whether a token merges into the running increment sum.
pub open spec fn is_sum_token(t: BfToken) -> bool {
    t is Increment || t is Decrement
}

/// Whether a token merges into the running cursor displacement.
pub open spec fn is_move_token(t: BfToken) -> bool {
    t is CursorLeft || t is CursorRight
}

/// What flushing the running increment sum emits: nothing for zero, else one
/// counted token.  The count is the sum taken modulo 256, which is faithful
/// because cell arithmetic wraps at 256.
pub open spec fn flush_sum(sum: int) -> Seq<BfToken> {
    if sum > 0 {
        seq![BfToken::Increment((sum % 256) as u8)]
    } else if sum < 0 {
        seq![BfToken::Decrement(((-sum) % 256) as u8)]
    } else {
        Seq::empty()
    }
}

/// What flushing the running cursor displacement emits: nothing for zero,
/// else one counted move token.
pub open spec fn flush_move(mv: int) -> Seq<BfToken> {
    if mv > 0 {
        seq![BfToken::CursorRight(#[verifier::truncate] (mv as usize))]
    } else if mv < 0 {
        seq![BfToken::CursorLeft(#[verifier::truncate] ((-mv) as usize))]
    } else {
        Seq::empty()
    }
}

/// The run-length-compression scan from position `i` on, carrying the
/// running increment sum, the running cursor displacement, and the output
/// built so far.  A token of another class flushes the pending sum, then the
/// pending displacement; the end of the stream flushes both.
pub open spec fn compress_from(
    toks: Seq<BfToken>,
    i: int,
    sum: int,
    mv: int,
    acc: Seq<BfToken>,
) -> Seq<BfToken>
    decreases toks.len() - i,
{
    if i < 0 || i >= toks.len() {
        acc + flush_sum(sum) + flush_move(mv)
    } else {
        let t = toks[i];
        let acc1 = if !is_sum_token(t) {
            acc + flush_sum(sum)
        } else {
            acc
        };
        let sum1: int = if !is_sum_token(t) {
            0
        } else {
            sum
        };
        let acc2 = if !is_move_token(t) {
            acc1 + flush_move(mv)
        } else {
            acc1
        };
        let mv1: int = if !is_move_token(t) {
            0
        } else {
            mv
        };
        match t {
            BfToken::Increment(_) => compress_from(toks, i + 1, sum1 + 1, mv1, acc2),
            BfToken::Decrement(_) => compress_from(toks, i + 1, sum1 - 1, mv1, acc2),
            BfToken::CursorLeft(_) => compress_from(toks, i + 1, sum1, mv1 - 1, acc2),
            BfToken::CursorRight(_) => compress_from(toks, i + 1, sum1, mv1 + 1, acc2),
            _ => compress_from(toks, i + 1, sum1, mv1, acc2.push(t)),
        }
    }
}

/// Run-length compression of a whole token sequence.
pub open spec fn spec_compress(toks: Seq<BfToken>) -> Seq<BfToken> {
    compress_from(toks, 0, 0, 0, Seq::empty())
}

/// What compressing parsing returns: the plain parse's error if the source
/// is malformed, else the compressed sequence with loop targets resolved
/// anew.
pub open spec fn spec_parse_compress(s: Seq<char>) -> Result<Seq<BfToken>, int> {
    match spec_parse(s) {
        Ok(resolved) => spec_resolve(spec_compress(resolved)),
        Err(i) => Err(i),
    }
}

/// Whether an executable parse result is the one the specification names.
pub open spec fn parse_result_is(
    expected: Result<Seq<BfToken>, int>,
    r: Result<Vec<BfToken>, BfParserError>,
) -> bool {
    match r {
        Ok(v) => expected == Ok::<Seq<BfToken>, int>(v@),
        Err(BfParserError::LoopNotClosed(idx)) => expected == Err::<Seq<BfToken>, int>(idx as int),
    }
}

impl BfParser {
    /// Maps each character to its token, one to one, then resolves the loop
    /// jump targets.
    pub fn parse(code: &str) -> (r: Result<Vec<BfToken>, BfParserError>)
        ensures
            parse_result_is(spec_parse(code@), r),
    {
        let chars = chars_vec(code);
        let mut tokens: Vec<BfToken> = Vec::new();
        let n = chars.len();
        let mut i: usize = 0;
        while i < n
            invariant
                n == chars@.len(),
                chars@ == code@,
                i <= n,
                tokens@ == tokens_of(chars@.take(i as int)),
            decreases n - i,
        {
            let c = chars[i];
            let t = if c == '+' {
                BfToken::Increment(1)
            } else if c == '-' {
                BfToken::Decrement(1)
            } else if c == '<' {
                BfToken::CursorLeft(1)
            } else if c == '>' {
                BfToken::CursorRight(1)
            } else if c == '[' {
                BfToken::LoopStart(0)
            } else if c == ']' {
                BfToken::LoopEnd(0)
            } else if c == ',' {
                BfToken::InputChar
            } else if c == '.' {
                BfToken::PrintChar
            } else {
                BfToken::NotCommand(c)
            };
            tokens.push(t);
            proof {
                assert(t == token_of_char(c));
                assert(tokens@ =~= tokens_of(chars@.take(i + 1)));
            }
            i = i + 1;
        }
        proof {
            assert(chars@.take(n as int) =~= chars@);
        }
        Self::loop_matching(tokens)
    }

    /// Parses, then merges runs of increments and of moves into counted
    /// tokens before resolving the loop jump targets of the shorter
    /// sequence.
    pub fn parse_compress(code: &str) -> (r: Result<Vec<BfToken>, BfParserError>)
        ensures
            parse_result_is(spec_parse_compress(code@), r),
    {
        let uncompressed = match Self::parse(code) {
            Ok(v) => v,
            Err(e) => {
                return Err(e);
            },
        };
        let mut tokens: Vec<BfToken> = Vec::new();
        let mut sum: i128 = 0;
        let mut mv: i128 = 0;
        let n = uncompressed.len();
        let mut i: usize = 0;
        while i < n
            invariant
                n == uncompressed@.len(),
                i <= n,
                -(i as int) <= sum as int <= i as int,
                -(i as int) <= mv as int <= i as int,
                spec_compress(uncompressed@) == compress_from(
                    uncompressed@,
                    i as int,
                    sum as int,
                    mv as int,
                    tokens@,
                ),
            decreases n - i,
        {
            let ghost acc0 = tokens@;
            let ghost sum0 = sum as int;
            let ghost mv0 = mv as int;
            let t = uncompressed[i];
            let t_is_sum = matches!(t, BfToken::Increment(_) | BfToken::Decrement(_));
            let t_is_move = matches!(t, BfToken::CursorLeft(_) | BfToken::CursorRight(_));
            if !t_is_sum && sum != 0 {
                if sum > 0 {
                    tokens.push(BfToken::Increment((sum % 256) as u8));
                } else {
                    tokens.push(BfToken::Decrement(((-sum) % 256) as u8));
                }
                sum = 0;
            }
            proof {
                let acc1 = if !is_sum_token(t) {
                    acc0 + flush_sum(sum0)
                } else {
                    acc0
                };
                assert(tokens@ =~= acc1);
            }
            if !t_is_move && mv != 0 {
                if mv > 0 {
                    tokens.push(BfToken::CursorRight(mv as usize));
                } else {
                    tokens.push(BfToken::CursorLeft((-mv) as usize));
                }
                mv = 0;
            }
            proof {
                let acc1 = if !is_sum_token(t) {
                    acc0 + flush_sum(sum0)
                } else {
                    acc0
                };
                let acc2 = if !is_move_token(t) {
                    acc1 + flush_move(mv0)
                } else {
                    acc1
                };
                assert(tokens@ =~= acc2);
            }
            match t {
                BfToken::Increment(_) => {
                    sum = sum + 1;
                },
                BfToken::Decrement(_) => {
                    sum = sum - 1;
                },
                BfToken::CursorLeft(_) => {
                    mv = mv - 1;
                },
                BfToken::CursorRight(_) => {
                    mv = mv + 1;
                },
                _ => {
                    tokens.push(t);
                },
            }
            i = i + 1;
        }
        let ghost acc0 = tokens@;
        let ghost sum0 = sum as int;
        let ghost mv0 = mv as int;
        if sum > 0 {
            tokens.push(BfToken::Increment((sum % 256) as u8));
        } else if sum < 0 {
            tokens.push(BfToken::Decrement(((-sum) % 256) as u8));
        }
        if mv > 0 {
            tokens.push(BfToken::CursorRight(mv as usize));
        } else if mv < 0 {
            tokens.push(BfToken::CursorLeft((-mv) as usize));
        }
        proof {
            assert(tokens@ =~= acc0 + flush_sum(sum0) + flush_move(mv0));
            assert(tokens@ == spec_compress(uncompressed@));
        }
        Self::loop_matching(tokens)
    }

    /// Resolves loop jump targets in one scan over the tokens, with a stack
    /// of the loop starts still open.  Every closed pair is rewritten in
    /// place to carry its partner's index.
    fn loop_matching(tokens: Vec<BfToken>) -> (r: Result<Vec<BfToken>, BfParserError>)
        ensures
            parse_result_is(spec_resolve(tokens@), r),
    {
        let mut out = tokens;
        let mut stack: Vec<usize> = Vec::new();
        let n = out.len();
        let mut index: usize = 0;
        proof {
            assert(stack@.map_values(|x: usize| x as int) =~= Seq::<int>::empty());
            assert(spec_resolve(tokens@) == resolve_from(
                out@,
                0,
                stack@.map_values(|x: usize| x as int),
            ));
        }
        while index < n
            invariant
                n == out@.len(),
                index <= n,
                forall|d: int| 0 <= d < stack@.len() ==> #[trigger] stack@[d] < n,
                spec_resolve(tokens@) == resolve_from(
                    out@,
                    index as int,
                    stack@.map_values(|x: usize| x as int),
                ),
            decreases n - index,
        {
            let ghost toks0 = out@;
            let ghost st0 = stack@.map_values(|x: usize| x as int);
            let t = out[index];
            match t {
                BfToken::LoopStart(_) => {
                    stack.push(index);
                    proof {
                        assert(stack@.map_values(|x: usize| x as int) =~= st0.push(index as int));
                    }
                },
                BfToken::LoopEnd(_) => {
                    if stack.len() == 0 {
                        proof {
                            assert(st0.len() == 0);
                            assert(out@[index as int] is LoopEnd);
                            assert(resolve_from(out@, index as int, st0) == Err::<
                                Seq<BfToken>,
                                int,
                            >(index as int));
                        }
                        return Err(BfParserError::LoopNotClosed(index));
                    }
                    let a = stack[stack.len() - 1];
                    let _ = stack.pop();
                    out[a] = BfToken::LoopStart(index);
                    out[index] = BfToken::LoopEnd(a);
                    proof {
                        assert(st0.last() == a as int);
                        assert(stack@.map_values(|x: usize| x as int) =~= st0.drop_last());
                        assert(out@ =~= toks0.update(a as int, BfToken::LoopStart(index)).update(
                            index as int,
                            BfToken::LoopEnd(a),
                        ));
                    }
                },
                _ => {},
            }
            index = index + 1;
        }
        if stack.len() > 0 {
            let j = stack[stack.len() - 1];
            proof {
                let st = stack@.map_values(|x: usize| x as int);
                assert(st.last() == j as int);
            }
            return Err(BfParserError::LoopNotClosed(j));
        }
        proof {
            assert(stack@.map_values(|x: usize| x as int).len() == 0);
        }
        Ok(out)
    }
}

// ---------------------------------------------------------------------------
// The laws of parsing, stated over source text
// ---------------------------------------------------------------------------

/// Law: a source whose brackets are balanced parses successfully; each loop
/// token of the result carries the index of its syntactic match, and every
/// other token is the source character's own, unchanged.
pub proof fn lemma_parse_balanced(s: Seq<char>)
    requires
        balanced(tokens_of(s)),
    ensures
        spec_parse(s) is Ok,
        spec_parse(s)->Ok_0.len() == s.len(),
        forall|j: int|
            0 <= j < s.len() && !(tokens_of(s)[j] is LoopStart) && !(tokens_of(s)[j] is LoopEnd)
                ==> spec_parse(s)->Ok_0[j] == #[trigger] tokens_of(s)[j],
        forall|a: int, b: int|
            #[trigger] matched_pair(tokens_of(s), a, b) ==> spec_parse(s)->Ok_0[a]
                == BfToken::LoopStart(#[verifier::truncate] (b as usize)) && spec_parse(
                s,
            )->Ok_0[b] == BfToken::LoopEnd(#[verifier::truncate] (a as usize)),
        forall|a: int|
            0 <= a < s.len() && #[trigger] tokens_of(s)[a] is LoopStart ==> exists|b: int|
                #[trigger] matched_pair(tokens_of(s), a, b),
        forall|b: int|
            0 <= b < s.len() && #[trigger] tokens_of(s)[b] is LoopEnd ==> exists|a: int|
                #[trigger] matched_pair(tokens_of(s), a, b),
{
    crate::matching::lemma_resolve_balanced(tokens_of(s));
}

/// Law: when the loop end at `u` closes nothing and no earlier loop end is
/// in that situation, parsing fails exactly at `u`.
pub proof fn lemma_parse_unmatched_close(s: Seq<char>, u: int)
    requires
        unmatched_close_at(tokens_of(s), u),
    ensures
        spec_parse(s) == Err::<Seq<BfToken>, int>(u),
{
    crate::matching::lemma_resolve_unmatched_close(tokens_of(s), u);
}

/// Law: when every loop end of the source closes a loop start but at least
/// one start never closes, parsing fails at the innermost — the last —
/// unclosed start.
pub proof fn lemma_parse_unmatched_open(s: Seq<char>, j: int)
    requires
        forall|k: int|
            0 <= k < s.len() && tokens_of(s)[k] is LoopEnd ==> #[trigger] depth(tokens_of(s), k)
                >= 1,
        unmatched_open_at(tokens_of(s), j),
        forall|k: int| j < k < s.len() ==> !#[trigger] unmatched_open_at(tokens_of(s), k),
    ensures
        spec_parse(s) == Err::<Seq<BfToken>, int>(j),
{
    crate::matching::lemma_resolve_unmatched_open(tokens_of(s), j);
}

/// Law: parsing succeeds exactly on sources whose brackets are balanced.
pub proof fn lemma_parse_ok_iff_balanced(s: Seq<char>)
    ensures
        spec_parse(s) is Ok <==> balanced(tokens_of(s)),
{
    crate::matching::lemma_resolve_ok_iff_balanced(tokens_of(s));
}

/// A run of tokens that contribute nothing to the depth keeps it flat.
pub(crate) proof fn lemma_depth_zero(ext: Seq<BfToken>, j: int)
    requires
        0 <= j <= ext.len(),
        forall|i: int| 0 <= i < ext.len() ==> nesting_delta(#[trigger] ext[i]) == 0,
    ensures
        depth(ext, j) == 0,
    decreases j,
{
    if j > 0 {
        lemma_depth_zero(ext, j - 1);
    }
}

/// Appending depth-neutral tokens keeps every depth nonnegative and leaves
/// the final depth unchanged.
proof fn lemma_append_neutral(acc: Seq<BfToken>, ext: Seq<BfToken>)
    requires
        forall|i: int| 0 <= i < ext.len() ==> nesting_delta(#[trigger] ext[i]) == 0,
        forall|k: int| 0 <= k <= acc.len() ==> #[trigger] depth(acc, k) >= 0,
    ensures
        forall|k: int| 0 <= k <= acc.len() + ext.len() ==> #[trigger] depth(acc + ext, k) >= 0,
        depth(acc + ext, (acc + ext).len() as int) == depth(acc, acc.len() as int),
{
    assert forall|k: int| 0 <= k <= acc.len() + ext.len() implies #[trigger] depth(acc + ext, k)
        >= 0 by {
        if k <= acc.len() {
            lemma_depth_agree(acc + ext, acc, k);
        } else {
            lemma_depth_append(acc, ext, k - acc.len());
            lemma_depth_zero(ext, k - acc.len());
        }
    }
    lemma_depth_append(acc, ext, ext.len() as int);
    lemma_depth_zero(ext, ext.len() as int);
}

/// Every token a flush emits is depth-neutral.
proof fn lemma_flush_neutral(sum: int, mv: int)
    ensures
        forall|i: int|
            0 <= i < flush_sum(sum).len() ==> nesting_delta(#[trigger] flush_sum(sum)[i]) == 0,
        forall|i: int|
            0 <= i < flush_move(mv).len() ==> nesting_delta(#[trigger] flush_move(mv)[i]) == 0,
{
}

/// The compression scan of a balanced sequence — continued from a state
/// whose output so far has nonnegative depths ending at the depth in front
/// of `i` — produces a balanced sequence: compression never touches a loop
/// token.
proof fn lemma_compress_balanced_from(
    toks: Seq<BfToken>,
    i: int,
    sum: int,
    mv: int,
    acc: Seq<BfToken>,
)
    requires
        0 <= i <= toks.len(),
        forall|k: int| 0 <= k <= toks.len() ==> #[trigger] depth(toks, k) >= 0,
        depth(toks, toks.len() as int) == 0,
        forall|k: int| 0 <= k <= acc.len() ==> #[trigger] depth(acc, k) >= 0,
        depth(acc, acc.len() as int) == depth(toks, i),
    ensures
        balanced(compress_from(toks, i, sum, mv, acc)),
    decreases toks.len() - i,
{
    lemma_flush_neutral(sum, mv);
    if i >= toks.len() {
        lemma_append_neutral(acc, flush_sum(sum));
        lemma_append_neutral(acc + flush_sum(sum), flush_move(mv));
    } else {
        let t = toks[i];
        assert(depth(toks, i + 1) == depth(toks, i) + nesting_delta(t));
        let acc1 = if !is_sum_token(t) {
            acc + flush_sum(sum)
        } else {
            acc
        };
        let sum1: int = if !is_sum_token(t) {
            0
        } else {
            sum
        };
        if !is_sum_token(t) {
            lemma_append_neutral(acc, flush_sum(sum));
        }
        let acc2 = if !is_move_token(t) {
            acc1 + flush_move(mv)
        } else {
            acc1
        };
        let mv1: int = if !is_move_token(t) {
            0
        } else {
            mv
        };
        if !is_move_token(t) {
            lemma_append_neutral(acc1, flush_move(mv));
        }
        assert(depth(acc2, acc2.len() as int) == depth(toks, i));
        if is_sum_token(t) || is_move_token(t) {
            match t {
                BfToken::Increment(_) => {
                    lemma_compress_balanced_from(toks, i + 1, sum1 + 1, mv1, acc2);
                },
                BfToken::Decrement(_) => {
                    lemma_compress_balanced_from(toks, i + 1, sum1 - 1, mv1, acc2);
                },
                BfToken::CursorLeft(_) => {
                    lemma_compress_balanced_from(toks, i + 1, sum1, mv1 - 1, acc2);
                },
                BfToken::CursorRight(_) => {
                    lemma_compress_balanced_from(toks, i + 1, sum1, mv1 + 1, acc2);
                },
                _ => {},
            }
        } else {
            let acc3 = acc2.push(t);
            let single = seq![t];
            assert(acc3 =~= acc2 + single);
            lemma_depth_append(acc2, single, 1);
            assert(single[0] == t);
            assert(depth(single, 1) == depth(single, 0) + nesting_delta(single[0]));
            assert(depth(single, 1) == nesting_delta(t));
            assert(depth(acc3, acc3.len() as int) == depth(toks, i + 1));
            assert forall|k: int| 0 <= k <= acc3.len() implies #[trigger] depth(acc3, k) >= 0 by {
                if k <= acc2.len() {
                    lemma_depth_agree(acc3, acc2, k);
                } else {
                    assert(depth(acc3, k) == depth(toks, i + 1));
                }
            }
            lemma_compress_balanced_from(toks, i + 1, sum1, mv1, acc3);
        }
    }
}

/// Law: compressing parsing accepts exactly the sources that plain parsing
/// accepts, and when it rejects, it reports the same position.
pub proof fn lemma_parse_compress_same_verdict(s: Seq<char>)
    ensures
        spec_parse_compress(s) is Ok <==> spec_parse(s) is Ok,
        spec_parse(s) is Err ==> spec_parse_compress(s) == spec_parse(s),
{
    if spec_parse(s) is Ok {
        crate::matching::lemma_resolve_ok_iff_balanced(tokens_of(s));
        crate::matching::lemma_resolve_preserves_balance(tokens_of(s));
        let resolved = spec_parse(s)->Ok_0;
        lemma_compress_balanced_from(resolved, 0, 0, 0, Seq::empty());
        crate::matching::lemma_resolve_ok_iff_balanced(spec_compress(resolved));
    }
}

} // verus!
