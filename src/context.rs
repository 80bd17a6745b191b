//! The input context that the automaton consumes: a string and a cursor into its bytes.
use vstd::prelude::*;
use vstd::string::StringSliceAdditionalSpecFns;
use vstd::utf8::encode_utf8;

verus! {

/// What the runtime asks of a context: whether its input has been used up, and
/// how far it has got. `position` never passes `limit`; the checks of a
/// `Checks` set only move it forward.
pub trait Exhausted {
    spec fn is_exhausted(&self) -> bool;

    /// How far the context has got through its input.
    spec fn position(&self) -> nat;

    /// The bound on `position`.
    spec fn limit(&self) -> nat;

    fn exhausted(&self) -> (r: bool)
        ensures
            r == self.is_exhausted(),
    ;

    /// The current position.
    fn progress(&self) -> (r: usize)
        ensures
            r == self.position(),
    ;
}

/// The byte strings of a list of arguments.
pub open spec fn args_view(args: Seq<Vec<u8>>) -> Seq<Seq<u8>> {
    args.map_values(|a: Vec<u8>| a@)
}

/// A set of named checks on contexts of type `C`. A check may change the
/// context, but only by moving its position forward: one that leaves the
/// position where it was leaves the whole context as it was.
pub trait Checks<C: Exhausted> {
    /// The verdict of check `name(args)` on `c`, and the context afterwards.
    spec fn check_spec(&self, name: Seq<u8>, args: Seq<Seq<u8>>, c: C) -> (bool, C);

    /// A check keeps the limit, never moves the position back nor past the
    /// limit, and changes nothing where it does not move the position.
    proof fn lemma_check_progress(&self, name: Seq<u8>, args: Seq<Seq<u8>>, c: C)
        requires
            c.position() <= c.limit(),
        ensures
            self.check_spec(name, args, c).1.limit() == c.limit(),
            c.position() <= self.check_spec(name, args, c).1.position() <= c.limit(),
            self.check_spec(name, args, c).1.position() == c.position() ==> self.check_spec(
                name,
                args,
                c,
            ).1 == c,
    ;

    /// Runs check `name(args)` on `c`.
    fn check(&self, name: &[u8], args: &Vec<Vec<u8>>, c: &mut C) -> (r: bool)
        requires
            old(c).position() <= old(c).limit(),
        ensures
            (r, *final(c)) == self.check_spec(name@, args_view(args@), *old(c)),
    ;
}

/// The bytes of a string, in UTF-8.
pub open spec fn bytes_of(s: String) -> Seq<u8> {
    encode_utf8(s@)
}

/// `pat` stands in `src` at position `cur`.
pub open spec fn occurs_at(src: Seq<u8>, cur: nat, pat: Seq<u8>) -> bool {
    &&& cur + pat.len() <= src.len()
    &&& src.subrange(cur as int, (cur + pat.len()) as int) == pat
}

/// Outcome of `eat(pat)` on a cursor: success and the cursor after it.
pub open spec fn eat_spec(src: Seq<u8>, cur: nat, pat: Seq<u8>) -> (bool, nat) {
    if occurs_at(src, cur, pat) {
        (true, cur + pat.len())
    } else {
        (false, cur)
    }
}

/// The context used by the automaton: an input string and a byte cursor into it.
#[derive(Clone)]
pub struct AutomatonContext {
    pub src: String,
    pub cur: usize,
}

impl AutomatonContext {
    /// The input as bytes.
    pub open spec fn input(&self) -> Seq<u8> {
        bytes_of(self.src)
    }

    /// The cursor stands inside the input or at its end.
    pub open spec fn wf(&self) -> bool {
        self.cur <= self.input().len()
    }

    /// A context at the start of `src`.
    pub fn new(src: String) -> (r: Self)
        ensures
            r.src == src,
            r.cur == 0,
            r.wf(),
    {
        AutomatonContext { src, cur: 0 }
    }

    /// Consumes `pat` if the remaining input starts with it.
    pub fn eat(&mut self, pat: &str) -> (r: bool)
        requires
            old(self).wf(),
        ensures
            final(self).src == old(self).src,
            (r, final(self).cur as nat) == eat_spec(old(self).input(), old(self).cur as nat, pat.spec_bytes()),
            final(self).wf(),
    {
        self.eat_bytes(pat.as_bytes())
    }

    /// Consumes the byte string `pat` if the remaining input starts with it.
    pub fn eat_bytes(&mut self, pat: &[u8]) -> (r: bool)
        requires
            old(self).wf(),
        ensures
            final(self).src == old(self).src,
            (r, final(self).cur as nat) == eat_spec(old(self).input(), old(self).cur as nat, pat@),
            final(self).wf(),
    {
        let src = self.src.as_str().as_bytes();
        let n = src.len();
        let m = pat.len();
        if m > n - self.cur {
            return false;
        }
        let mut k: usize = 0;
        while k < m
            invariant
                src@ == old(self).input(),
                n == src@.len(),
                m == pat@.len(),
                self.cur + m <= n,
                k <= m,
                forall|j: int| 0 <= j < k ==> src@[self.cur + j] == pat@[j],
                *self == *old(self),
            decreases m - k,
        {
            if src[self.cur + k] != pat[k] {
                proof {
                    assert(src@.subrange(self.cur as int, self.cur + m)[k as int] != pat@[k as int]);
                }
                return false;
            }
            k = k + 1;
        }
        proof {
            assert(src@.subrange(self.cur as int, self.cur + m) =~= pat@);
        }
        self.cur = self.cur + m;
        true
    }
}

impl Exhausted for AutomatonContext {
    open spec fn is_exhausted(&self) -> bool {
        self.cur == self.input().len()
    }

    open spec fn position(&self) -> nat {
        self.cur as nat
    }

    open spec fn limit(&self) -> nat {
        self.input().len()
    }

    fn exhausted(&self) -> (r: bool) {
        self.cur == self.src.as_str().as_bytes().len()
    }

    fn progress(&self) -> (r: usize) {
        self.cur
    }
}

/// The name of the check that `EatCheck` provides.
pub open spec fn eat_name() -> Seq<u8> {
    seq![101u8, 97u8, 116u8]
}

/// The checks on an `AutomatonContext`: `eat("pattern")` consumes the pattern
/// where the remaining input starts with it. Any other check fails and changes
/// nothing.
pub struct EatCheck;

impl Checks<AutomatonContext> for EatCheck {
    open spec fn check_spec(&self, name: Seq<u8>, args: Seq<Seq<u8>>, c: AutomatonContext) -> (bool, AutomatonContext) {
        if name == eat_name() && args.len() == 1 {
            let e = eat_spec(c.input(), c.cur as nat, args[0]);
            // a cursor beyond `usize::MAX` cannot be held, so such a match fails
            if e.1 <= usize::MAX {
                (e.0, AutomatonContext { src: c.src, cur: e.1 as usize })
            } else {
                (false, c)
            }
        } else {
            (false, c)
        }
    }

    proof fn lemma_check_progress(&self, name: Seq<u8>, args: Seq<Seq<u8>>, c: AutomatonContext) {
    }

    fn check(&self, name: &[u8], args: &Vec<Vec<u8>>, c: &mut AutomatonContext) -> (r: bool) {
        if name.len() == 3 && name[0] == 101u8 && name[1] == 97u8 && name[2] == 116u8 && args.len()
            == 1 {
            proof {
                assert(name@ =~= eat_name());
                assert(args_view(args@)[0] == args@[0]@);
            }
            c.eat_bytes(args[0].as_slice())
        } else {
            proof {
                if name@ == eat_name() {
                    assert(name@[0] == 101u8 && name@[1] == 97u8 && name@[2] == 116u8);
                }
            }
            false
        }
    }
}

} // verus!
