use vstd::prelude::*;

use crate::text::{chars_vec, string_from_chars};
use crate::token::is_command_char;

verus! {

/// Two command characters that undo one another when adjacent.
pub open spec fn inverse_pair(last: char, next: char) -> bool {
    ||| (next == '+' && last == '-')
    ||| (next == '-' && last == '+')
    ||| (next == '>' && last == '<')
    ||| (next == '<' && last == '>')
}

/// One step of the cancellation scan: the incoming character removes the
/// last buffered character when the two are inverses, and is appended
/// otherwise.
pub open spec fn cancel_step(buf: Seq<char>, c: char) -> Seq<char> {
    if buf.len() > 0 && inverse_pair(buf.last(), c) {
        buf.drop_last()
    } else {
        buf.push(c)
    }
}

/// The left-to-right cancellation scan over a whole text.
pub open spec fn cancel_adjacent(s: Seq<char>) -> Seq<char>
    decreases s.len(),
{
    if s.len() == 0 {
        Seq::empty()
    } else {
        cancel_step(cancel_adjacent(s.drop_last()), s.last())
    }
}

/// What optimization leaves of a source text: command characters only,
/// with adjacent inverse pairs cancelled.
pub open spec fn spec_optimize(s: Seq<char>) -> Seq<char> {
    cancel_adjacent(s.filter(|c: char| is_command_char(c)))
}

/// Shrinks source text before parsing without changing what it executes.
pub struct BfCodeOptimizer;

impl BfCodeOptimizer {
    /// Strips comment characters, then cancels adjacent inverse commands.
    pub fn optimize(code: &str) -> (r: String)
        ensures
            r@ == spec_optimize(code@),
    {
        let chars = chars_vec(code);
        let stripped = Self::remove_not_command(&chars);
        let cancelled = Self::remove_unnecessary_relative_operate(&stripped);
        string_from_chars(&cancelled)
    }

    /// Keeps only the eight command characters.
    fn remove_not_command(code: &Vec<char>) -> (r: Vec<char>)
        ensures
            r@ == code@.filter(|c: char| is_command_char(c)),
    {
        let mut r: Vec<char> = Vec::new();
        let n = code.len();
        let mut i: usize = 0;
        while i < n
            invariant
                n == code@.len(),
                i <= n,
                r@ == code@.take(i as int).filter(|c: char| is_command_char(c)),
            decreases n - i,
        {
            let c = code[i];
            let keep = c == '+' || c == '-' || c == ',' || c == '.' || c == '[' || c == ']'
                || c == '<' || c == '>';
            if keep {
                r.push(c);
            }
            proof {
                let pred = |c: char| is_command_char(c);
                let prefix = code@.take(i as int);
                let longer = code@.take(i + 1);
                assert(longer =~= prefix + seq![c]);
                Seq::<char>::filter_distributes_over_add(prefix, seq![c], pred);
                reveal_with_fuel(Seq::<_>::filter, 2);
                assert(seq![c].drop_last() =~= Seq::<char>::empty());
                if keep {
                    assert(seq![c].filter(pred) =~= seq![c]);
                } else {
                    assert(seq![c].filter(pred) =~= Seq::<char>::empty());
                }
                assert(r@ =~= longer.filter(pred));
            }
            i = i + 1;
        }
        proof {
            assert(code@.take(n as int) =~= code@);
        }
        r
    }

    /// Scans left to right; a command that is the exact inverse of the last
    /// buffered one removes it instead of being appended.
    fn remove_unnecessary_relative_operate(code: &Vec<char>) -> (r: Vec<char>)
        ensures
            r@ == cancel_adjacent(code@),
    {
        let mut buf: Vec<char> = Vec::new();
        let n = code.len();
        let mut i: usize = 0;
        while i < n
            invariant
                n == code@.len(),
                i <= n,
                buf@ == cancel_adjacent(code@.take(i as int)),
            decreases n - i,
        {
            let c = code[i];
            let ghost prefix = code@.take(i as int);
            let cancels = if buf.len() > 0 {
                let last = buf[buf.len() - 1];
                (c == '+' && last == '-') || (c == '-' && last == '+') || (c == '>' && last == '<')
                    || (c == '<' && last == '>')
            } else {
                false
            };
            if cancels {
                buf.pop();
            } else {
                buf.push(c);
            }
            proof {
                let longer = code@.take(i + 1);
                assert(longer.drop_last() =~= prefix);
                assert(longer.last() == c);
                assert(buf@ =~= cancel_step(cancel_adjacent(prefix), c));
            }
            i = i + 1;
        }
        proof {
            assert(code@.take(n as int) =~= code@);
        }
        buf
    }
}

/// A text with no adjacent pair of inverse commands left in it.
pub open spec fn no_adjacent_inverse(s: Seq<char>) -> bool {
    forall|i: int| 0 <= i && i + 1 < s.len() ==> !inverse_pair(#[trigger] s[i], s[i + 1])
}

/// The cancellation scan invents no characters: when every character of the
/// input is a command, so is every character of the result.
proof fn lemma_cancel_keeps_commands(s: Seq<char>)
    requires
        forall|i: int| 0 <= i < s.len() ==> is_command_char(#[trigger] s[i]),
    ensures
        forall|i: int|
            0 <= i < cancel_adjacent(s).len() ==> is_command_char(#[trigger] cancel_adjacent(s)[i]),
    decreases s.len(),
{
    if s.len() > 0 {
        let d = s.drop_last();
        assert(forall|i: int| 0 <= i < d.len() ==> is_command_char(#[trigger] d[i]));
        lemma_cancel_keeps_commands(d);
        let t = cancel_adjacent(d);
        let r = cancel_adjacent(s);
        assert(r == cancel_step(t, s.last()));
        if t.len() > 0 && inverse_pair(t.last(), s.last()) {
            assert(forall|i: int| 0 <= i < r.len() ==> r[i] == t[i]);
        } else {
            assert(is_command_char(s.last()));
        }
    }
}

/// The cancellation scan leaves no adjacent inverse pair behind.
proof fn lemma_cancel_no_adjacent(s: Seq<char>)
    ensures
        no_adjacent_inverse(cancel_adjacent(s)),
    decreases s.len(),
{
    if s.len() > 0 {
        let d = s.drop_last();
        lemma_cancel_no_adjacent(d);
        let t = cancel_adjacent(d);
        let r = cancel_adjacent(s);
        assert(r == cancel_step(t, s.last()));
        if t.len() > 0 && inverse_pair(t.last(), s.last()) {
            assert(forall|i: int| 0 <= i < r.len() ==> r[i] == t[i]);
        } else {
            assert(forall|i: int| 0 <= i < t.len() ==> r[i] == t[i]);
            assert(forall|i: int|
                0 <= i && i + 1 < r.len() ==> !inverse_pair(#[trigger] r[i], r[i + 1])) by {
                if t.len() > 0 {
                    assert(!inverse_pair(t.last(), s.last()));
                }
            }
        }
    }
}

/// A text with no adjacent inverse pair is a fixed point of the scan.
proof fn lemma_cancel_fixed_point(s: Seq<char>)
    requires
        no_adjacent_inverse(s),
    ensures
        cancel_adjacent(s) == s,
    decreases s.len(),
{
    if s.len() == 0 {
        assert(cancel_adjacent(s) =~= s);
    } else {
        let d = s.drop_last();
        assert(no_adjacent_inverse(d));
        lemma_cancel_fixed_point(d);
        if d.len() > 0 {
            assert(d.last() == s[s.len() - 2]);
            assert(!inverse_pair(s[s.len() - 2], s[s.len() - 1]));
        }
        assert(cancel_adjacent(s) =~= s);
    }
}

/// Filtering a text in which every character already satisfies the command
/// predicate returns it unchanged.
proof fn lemma_filter_commands_identity(s: Seq<char>)
    requires
        forall|i: int| 0 <= i < s.len() ==> is_command_char(#[trigger] s[i]),
    ensures
        s.filter(|c: char| is_command_char(c)) == s,
    decreases s.len(),
{
    reveal(Seq::<_>::filter);
    if s.len() > 0 {
        let d = s.drop_last();
        assert(forall|i: int| 0 <= i < d.len() ==> is_command_char(#[trigger] d[i]));
        lemma_filter_commands_identity(d);
        assert(is_command_char(s.last()));
        assert(s.filter(|c: char| is_command_char(c)) =~= s);
    } else {
        assert(s.filter(|c: char| is_command_char(c)) =~= s);
    }
}

/// Law: optimization is idempotent.  Optimizing an already optimized text
/// returns it unchanged, so running the optimizer twice is the same as
/// running it once.
pub proof fn lemma_optimize_idempotent(s: Seq<char>)
    ensures
        spec_optimize(spec_optimize(s)) == spec_optimize(s),
{
    let pred = |c: char| is_command_char(c);
    let f = s.filter(pred);
    let t = cancel_adjacent(f);
    assert(forall|i: int| 0 <= i < f.len() ==> is_command_char(#[trigger] f[i])) by {
        assert(forall|i: int| 0 <= i < f.len() ==> pred(#[trigger] f[i]));
    }
    lemma_cancel_keeps_commands(f);
    lemma_filter_commands_identity(t);
    lemma_cancel_no_adjacent(f);
    lemma_cancel_fixed_point(t);
}

} // verus!
