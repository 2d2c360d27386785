use vstd::prelude::*;

use crate::stack::step;
use crate::stack::Error;
use crate::stack::Op;
use crate::stack::Stack;
use crate::value::Elt;
use vstd::string::StrSliceExecFns;

verus! {

/// The characters that separate tokens on an input line: ASCII
/// whitespace.
pub open spec fn is_token_sep(c: char) -> bool {
    c == ' ' || c == '\t' || c == '\n' || c == '\r' || c == '\u{b}' || c == '\u{c}'
}

/// Splitting a line into tokens, scanned left to right while the
/// current, still growing token is carried along: a token is a maximal
/// run of non-separator characters.
pub open spec fn tok_rec(s: Seq<char>, cur: Seq<char>) -> Seq<Seq<char>>
    decreases s.len(),
{
    if s.len() == 0 {
        if cur.len() == 0 {
            Seq::empty()
        } else {
            seq![cur]
        }
    } else if is_token_sep(s[0]) {
        if cur.len() == 0 {
            tok_rec(s.drop_first(), Seq::empty())
        } else {
            seq![cur] + tok_rec(s.drop_first(), Seq::empty())
        }
    } else {
        tok_rec(s.drop_first(), cur.push(s[0]))
    }
}

/// The tokens of a line, in order.
pub open spec fn tokens_of(s: Seq<char>) -> Seq<Seq<char>> {
    tok_rec(s, Seq::empty())
}

/// Whether a character is an ASCII decimal digit (code points 48
/// through 57).
pub open spec fn is_digit(c: char) -> bool {
    48 <= c as u32 && c as u32 <= 57
}

/// Whether every character of the run is an ASCII decimal digit.
pub open spec fn all_digits(ds: Seq<char>) -> bool {
    forall|i: int| 0 <= i < ds.len() ==> is_digit(#[trigger] ds[i])
}

/// The value of a run of decimal digits, most significant first.
pub open spec fn digits_val(ds: Seq<char>) -> int
    decreases ds.len(),
{
    if ds.len() == 0 {
        0
    } else {
        digits_val(ds.drop_last()) * 10 + (ds.last() as u32 - 48)
    }
}

/// Reading a token as a signed 32-bit decimal integer, exactly as the
/// standard library's string-to-integer conversion does: one optional
/// `+` or `-` sign, then at least one ASCII digit and nothing else, and
/// the value must be representable.
pub open spec fn parse_i32(t: Seq<char>) -> Option<i32> {
    let neg = t.len() > 0 && t[0] == '-';
    let ds = if t.len() > 0 && (t[0] == '-' || t[0] == '+') {
        t.drop_first()
    } else {
        t
    };
    if ds.len() == 0 || !all_digits(ds) {
        None
    } else if neg {
        if digits_val(ds) <= 0x8000_0000 {
            Some((-digits_val(ds)) as i32)
        } else {
            None
        }
    } else {
        if digits_val(ds) <= 0x7fff_ffff {
            Some(digits_val(ds) as i32)
        } else {
            None
        }
    }
}

/// What a single token asks for: push a literal, apply an operation, or
/// nothing lawful.
#[derive(Clone, Copy, Debug, PartialEq, Eq, Structural)]
pub enum Action {
    Push(Elt),
    Apply(Op),
    Bad,
}

/// The action a token stands for. Operation symbols and the two boolean
/// literals are fixed words; any other token is read as an integer
/// literal, and one that is no integer either is lawless.
pub open spec fn token_action(t: Seq<char>) -> Action {
    if t == seq!['+'] {
        Action::Apply(Op::Add)
    } else if t == seq!['~'] {
        Action::Apply(Op::Neg)
    } else if t == seq!['<', '-', '>'] {
        Action::Apply(Op::Swap)
    } else if t == seq!['='] {
        Action::Apply(Op::Eq)
    } else if t == seq!['#'] {
        Action::Apply(Op::Rand)
    } else if t == seq!['t', 'r', 'u', 'e'] {
        Action::Push(Elt::Bool(true))
    } else if t == seq!['f', 'a', 'l', 's', 'e'] {
        Action::Push(Elt::Bool(false))
    } else if t == seq!['q', 'u', 'i', 't'] {
        Action::Apply(Op::Quit)
    } else {
        match parse_i32(t) {
            Some(n) => Action::Push(Elt::Int(n)),
            None => Action::Bad,
        }
    }
}

/// How evaluating a line's tokens, in order, may take the stack from
/// `s` to `fs` with result `res`: literals are pushed, operations are
/// stepped, and the first failure — a recoverable error, the quit
/// signal, or a token that stands for nothing — ends the line at once
/// with the stack as it stood.
pub open spec fn run_line(
    s: Seq<Elt>,
    toks: Seq<Seq<char>>,
    fs: Seq<Elt>,
    res: Result<(), Error>,
) -> bool
    decreases toks.len(),
{
    if toks.len() == 0 {
        fs == s && res == Ok::<(), Error>(())
    } else {
        match token_action(toks[0]) {
            Action::Push(e) => run_line(s.push(e), toks.drop_first(), fs, res),
            Action::Apply(op) => (exists|mid: Seq<Elt>|
                #[trigger] step(s, op, mid, Ok::<(), Error>(())) && run_line(
                    mid,
                    toks.drop_first(),
                    fs,
                    res,
                )) || (exists|e: Error|
                #[trigger] step(s, op, s, Err::<(), Error>(e)) && fs == s && res == Err::<
                    (),
                    Error,
                >(e)),
            Action::Bad => fs == s && res == Err::<(), Error>(Error::Syntax),
        }
    }
}

/// Whether a character separates tokens.
fn sep_char(c: char) -> (b: bool)
    ensures
        b == is_token_sep(c),
{
    c == ' ' || c == '\t' || c == '\n' || c == '\r' || c == '\u{b}' || c == '\u{c}'
}

/// Split a line into its tokens.
fn tokenize(s: &str) -> (toks: Vec<Vec<char>>)
    ensures
        toks.deep_view() == tokens_of(s@),
{
    let n = s.unicode_len();
    let mut toks: Vec<Vec<char>> = Vec::new();
    let mut cur: Vec<char> = Vec::new();
    let mut i: usize = 0;
    proof {
        assert(s@.skip(0) =~= s@);
        assert(toks.deep_view() =~~= Seq::<Seq<char>>::empty());
        assert(Seq::<Seq<char>>::empty() + tok_rec(s@, Seq::empty()) =~~= tok_rec(
            s@,
            Seq::empty(),
        ));
    }
    while i < n
        invariant
            n == s@.len(),
            0 <= i <= n,
            tokens_of(s@) == toks.deep_view() + tok_rec(s@.skip(i as int), cur@),
        decreases n - i,
    {
        let c = s.get_char(i);
        proof {
            assert(s@.skip(i as int).drop_first() =~= s@.skip(i as int + 1));
            assert(s@.skip(i as int)[0] == s@[i as int]);
        }
        if sep_char(c) {
            proof {
                if cur@.len() == 0 {
                    assert(cur@ =~= Seq::<char>::empty());
                }
            }
            if cur.len() > 0 {
                let ghost prev = toks.deep_view();
                let done = cur;
                cur = Vec::new();
                toks.push(done);
                proof {
                    assert(toks.deep_view() =~~= prev.push(done@));
                    assert(prev + (seq![done@] + tok_rec(s@.skip(i as int + 1), Seq::empty()))
                        =~~= toks.deep_view() + tok_rec(s@.skip(i as int + 1), Seq::empty()));
                }
            }
        } else {
            let ghost prev_cur = cur@;
            cur.push(c);
            proof {
                assert(tok_rec(s@.skip(i as int), prev_cur) == tok_rec(
                    s@.skip(i as int + 1),
                    prev_cur.push(c),
                ));
            }
        }
        i += 1;
    }
    proof {
        assert(s@.skip(n as int) =~= Seq::<char>::empty());
    }
    if cur.len() > 0 {
        let ghost prev = toks.deep_view();
        toks.push(cur);
        proof {
            assert(toks.deep_view() =~~= prev.push(cur@));
            assert(prev + seq![cur@] =~~= toks.deep_view());
        }
    } else {
        proof {
            assert(toks.deep_view() + Seq::<Seq<char>>::empty() =~~= toks.deep_view());
        }
    }
    toks
}

/// Every digit run has a non-negative value.
proof fn lemma_digits_val_nonneg(ds: Seq<char>)
    requires
        all_digits(ds),
    ensures
        digits_val(ds) >= 0,
    decreases ds.len(),
{
    if ds.len() > 0 {
        assert(all_digits(ds.drop_last()));
        lemma_digits_val_nonneg(ds.drop_last());
    }
}

/// A digit run is worth at least any of its prefixes.
proof fn lemma_digits_val_prefix(ds: Seq<char>, k: int)
    requires
        all_digits(ds),
        0 <= k <= ds.len(),
    ensures
        digits_val(ds.subrange(0, k)) <= digits_val(ds),
    decreases ds.len() - k,
{
    if k == ds.len() {
        assert(ds.subrange(0, k) =~= ds);
    } else {
        lemma_digits_val_prefix(ds, k + 1);
        assert(ds.subrange(0, k + 1).drop_last() =~= ds.subrange(0, k));
        assert(all_digits(ds.subrange(0, k)));
        lemma_digits_val_nonneg(ds.subrange(0, k));
        assert(digits_val(ds.subrange(0, k + 1)) == digits_val(ds.subrange(0, k)) * 10 + (
        ds.subrange(0, k + 1).last() as u32 - 48));
        assert(is_digit(ds[k]));
    }
}

/// Read a token as an `i32` written in decimal, if it is one.
fn parse_int_token(t: &Vec<char>) -> (r: Option<i32>)
    ensures
        r == parse_i32(t@),
{
    if t.len() == 0 {
        return None;
    }
    let c0 = t[0];
    let neg = c0 == '-';
    let start: usize = if c0 == '-' || c0 == '+' {
        1
    } else {
        0
    };
    let ghost ds = if start == 1 {
        t@.drop_first()
    } else {
        t@
    };
    proof {
        if start == 1 {
            assert(ds =~= t@.subrange(1, t@.len() as int));
        }
    }
    if t.len() == start {
        return None;
    }
    let mut acc: u64 = 0;
    let mut j: usize = start;
    while j < t.len()
        invariant
            start <= j <= t@.len(),
            start < t@.len(),
            start == 0 || start == 1,
            (start == 1) == (t@[0] == '-' || t@[0] == '+'),
            neg == (t@[0] == '-'),
            start == 1 ==> ds == t@.drop_first(),
            start == 0 ==> ds == t@,
            ds.len() == t@.len() - start,
            forall|k: int| start <= k < j ==> is_digit(#[trigger] t@[k]),
            forall|k: int| 0 <= k < ds.len() ==> ds[k] == t@[k + start],
            acc == digits_val(t@.subrange(start as int, j as int)),
            acc <= 0x8000_0000,
        decreases t@.len() - j,
    {
        let c = t[j];
        let u = c as u32;
        if u < 48 || u > 57 {
            proof {
                assert(ds[j - start] == t@[j as int]);
                assert(!is_digit(t@[j as int]));
                assert(!all_digits(ds));
                assert(parse_i32(t@) is None);
            }
            return None;
        }
        proof {
            assert(t@.subrange(start as int, j as int + 1).drop_last() =~= t@.subrange(
                start as int,
                j as int,
            ));
        }
        acc = acc * 10 + ((u - 48) as u64);
        if acc > 0x8000_0000 {
            proof {
                let dsp = t@.subrange(start as int, j as int + 1);
                assert(dsp.last() == t@[j as int]);
                assert(acc == digits_val(dsp));
                if all_digits(ds) {
                    assert(ds.subrange(0, j + 1 - start) =~= dsp);
                    lemma_digits_val_prefix(ds, j + 1 - start);
                    assert(digits_val(ds) > 0x8000_0000);
                }
                assert(parse_i32(t@) is None);
            }
            return None;
        }
        j += 1;
    }
    proof {
        assert(ds =~= t@.subrange(start as int, t@.len() as int));
        assert(all_digits(ds));
        assert(acc == digits_val(ds));
    }
    if neg {
        if acc == 0x8000_0000 {
            Some(i32::MIN)
        } else {
            Some(0i32 - (acc as i32))
        }
    } else {
        if acc == 0x8000_0000 {
            None
        } else {
            Some(acc as i32)
        }
    }
}

/// Decide what a token asks for.
fn classify(t: &Vec<char>) -> (a: Action)
    ensures
        a == token_action(t@),
{
    let len = t.len();
    if len == 1 && t[0] == '+' {
        proof {
            assert(t@ =~= seq!['+']);
        }
        Action::Apply(Op::Add)
    } else if len == 1 && t[0] == '~' {
        proof {
            assert(t@ =~= seq!['~']);
        }
        Action::Apply(Op::Neg)
    } else if len == 3 && t[0] == '<' && t[1] == '-' && t[2] == '>' {
        proof {
            assert(t@ =~= seq!['<', '-', '>']);
        }
        Action::Apply(Op::Swap)
    } else if len == 1 && t[0] == '=' {
        proof {
            assert(t@ =~= seq!['=']);
        }
        Action::Apply(Op::Eq)
    } else if len == 1 && t[0] == '#' {
        proof {
            assert(t@ =~= seq!['#']);
        }
        Action::Apply(Op::Rand)
    } else if len == 4 && t[0] == 't' && t[1] == 'r' && t[2] == 'u' && t[3] == 'e' {
        proof {
            assert(t@ =~= seq!['t', 'r', 'u', 'e']);
        }
        Action::Push(Elt::Bool(true))
    } else if len == 5 && t[0] == 'f' && t[1] == 'a' && t[2] == 'l' && t[3] == 's' && t[4] == 'e' {
        proof {
            assert(t@ =~= seq!['f', 'a', 'l', 's', 'e']);
        }
        Action::Push(Elt::Bool(false))
    } else if len == 4 && t[0] == 'q' && t[1] == 'u' && t[2] == 'i' && t[3] == 't' {
        proof {
            assert(t@ =~= seq!['q', 'u', 'i', 't']);
        }
        Action::Apply(Op::Quit)
    } else {
        match parse_int_token(t) {
            Some(n) => Action::Push(Elt::Int(n)),
            None => Action::Bad,
        }
    }
}

/// Evaluate one input line against the stack. Each token, scanned left
/// to right, pushes its literal or applies its operation; the first
/// error ends the line at once and is returned, with the stack as the
/// tokens before it left it. A fully lawful line reports `Ok`.
pub fn evaluate_line(stack: &mut Stack, buf: &String) -> (r: Result<(), Error>)
    ensures
        run_line(old(stack)@, tokens_of(buf@), final(stack)@, r),
{
    let toks = tokenize(buf.as_str());
    let ghost toksd = toks.deep_view();
    let ghost s0 = stack@;
    let mut out: Result<(), Error> = Ok(());
    let mut k: usize = 0;
    proof {
        assert(toksd.skip(0) =~= toksd);
    }
    while k < toks.len() && out.is_ok()
        invariant
            0 <= k <= toks.len(),
            toksd == toks.deep_view(),
            toksd == tokens_of(buf@),
            out is Ok ==> forall|fs: Seq<Elt>, res: Result<(), Error>|
                #[trigger] run_line(stack@, toksd.skip(k as int), fs, res) ==> run_line(
                    s0,
                    toksd,
                    fs,
                    res,
                ),
            out is Err ==> run_line(s0, toksd, stack@, out),
        decreases toks.len() - k, (if out is Ok { 1int } else { 0int }),
    {
        let t = &toks[k];
        let a = classify(t);
        proof {
            assert(toks@[k as int].deep_view() =~= toks@[k as int]@);
            assert(toksd.skip(k as int)[0] == toksd[k as int]);
            assert(toksd.skip(k as int).drop_first() =~= toksd.skip(k as int + 1));
        }
        match a {
            Action::Push(e) => {
                let ghost pre = stack@;
                stack.push(e);
                proof {
                    assert forall|fs: Seq<Elt>, res: Result<(), Error>| #[trigger] run_line(
                        stack@,
                        toksd.skip(k as int + 1),
                        fs,
                        res,
                    ) implies run_line(s0, toksd, fs, res) by {
                        assert(run_line(pre, toksd.skip(k as int), fs, res));
                    };
                }
                k += 1;
            },
            Action::Apply(op) => {
                let ghost pre = stack@;
                let r = stack.eval(op);
                match r {
                    Ok(()) => {
                        proof {
                            assert forall|fs: Seq<Elt>, res: Result<(), Error>| #[trigger] run_line(
                                stack@,
                                toksd.skip(k as int + 1),
                                fs,
                                res,
                            ) implies run_line(s0, toksd, fs, res) by {
                                assert(step(pre, op, stack@, Ok::<(), Error>(())));
                                assert(run_line(pre, toksd.skip(k as int), fs, res));
                            };
                        }
                        k += 1;
                    },
                    Err(e) => {
                        out = Err(e);
                        proof {
                            assert(step(pre, op, stack@, Err::<(), Error>(e)));
                            assert(stack@ == pre);
                            assert(step(pre, op, pre, Err::<(), Error>(e)));
                            assert(run_line(pre, toksd.skip(k as int), pre, Err::<(), Error>(e)));
                            assert(run_line(s0, toksd, stack@, Err::<(), Error>(e)));
                        }
                    },
                }
            },
            Action::Bad => {
                out = Err(Error::Syntax);
                proof {
                    assert(run_line(
                        stack@,
                        toksd.skip(k as int),
                        stack@,
                        Err::<(), Error>(Error::Syntax),
                    ));
                    assert(run_line(s0, toksd, stack@, Err::<(), Error>(Error::Syntax)));
                }
            },
        }
    }
    match out {
        Ok(_) => {
            proof {
                assert(toksd.skip(k as int) =~= Seq::<Seq<char>>::empty());
                assert(run_line(stack@, toksd.skip(k as int), stack@, Ok::<(), Error>(())));
                assert(run_line(s0, toksd, stack@, Ok::<(), Error>(())));
            }
            Ok(())
        },
        Err(e) => Err(e),
    }
}

} // verus!
