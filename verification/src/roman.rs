//! The Roman numeral codec: parsing single symbols, validating a symbol
//! sequence against the formation rules, and summing it to an integer.

use vstd::prelude::*;

use crate::error::{Error, Kind};
use crate::text;

verus! {

/// One of the seven Roman numeral symbols.
#[derive(Clone, Copy, PartialEq, Eq, Structural, Debug)]
pub enum Roman {
    I,
    V,
    X,
    L,
    C,
    D,
    M,
}

/// The numeric value of a symbol.
pub open spec fn value(r: Roman) -> int {
    match r {
        Roman::I => 1,
        Roman::V => 5,
        Roman::X => 10,
        Roman::L => 50,
        Roman::C => 100,
        Roman::D => 500,
        Roman::M => 1000,
    }
}

/// The symbols that may repeat up to three times in a row; the others may
/// not repeat at all.
pub open spec fn repeatable(r: Roman) -> bool {
    match r {
        Roman::I | Roman::X | Roman::C | Roman::M => true,
        Roman::V | Roman::L | Roman::D => false,
    }
}

/// `a` may stand directly before the larger `b` to form a subtractive pair.
pub open spec fn can_subtract_spec(a: Roman, b: Roman) -> bool {
    match (a, b) {
        (Roman::I, Roman::V) => true,
        (Roman::I, Roman::X) => true,
        (Roman::X, Roman::L) => true,
        (Roman::X, Roman::C) => true,
        (Roman::C, Roman::D) => true,
        (Roman::C, Roman::M) => true,
        _ => false,
    }
}

/// The repetition rule: I, X, C, M at most three times in a row; V, L, D
/// never more than once in the whole sequence.
pub open spec fn rep_ok(s: Seq<Roman>) -> bool {
    &&& forall|i: int|
        #![trigger s[i], s[i + 3]]
        0 <= i && i + 3 < s.len() ==> !(s[i + 1] == s[i] && s[i + 2] == s[i] && s[i + 3] == s[i])
    &&& forall|i: int, j: int|
        #![trigger s[i], s[j]]
        0 <= i < j < s.len() && !repeatable(s[i]) ==> s[j] != s[i]
}

/// The ordering rule: a symbol smaller than its successor must form one of
/// the six permitted subtractive pairs, and the symbol two positions
/// before the pair's second member must be at least as large as that
/// second member.
pub open spec fn pairs_ok(s: Seq<Roman>) -> bool {
    &&& forall|i: int|
        #![trigger s[i], s[i + 1]]
        0 <= i && i + 1 < s.len() && value(s[i]) < value(s[i + 1]) ==> can_subtract_spec(
            s[i],
            s[i + 1],
        )
    &&& forall|i: int|
        #![trigger s[i], s[i + 2]]
        0 <= i && i + 2 < s.len() && value(s[i + 1]) < value(s[i + 2]) ==> value(s[i]) >= value(
            s[i + 2],
        )
}

/// The whole formation rule set: repetition and ordering.
pub open spec fn numeral_ok(s: Seq<Roman>) -> bool {
    rep_ok(s) && pairs_ok(s)
}

/// The value the left-to-right walk assigns to `s`: a symbol smaller than
/// its successor contributes the difference and both are consumed;
/// otherwise the symbol contributes its own value.
pub open spec fn walk_val(s: Seq<Roman>) -> int
    decreases s.len(),
{
    if s.len() == 0 {
        0
    } else if s.len() == 1 {
        value(s[0])
    } else if value(s[0]) < value(s[1]) {
        value(s[1]) - value(s[0]) + walk_val(s.skip(2))
    } else {
        value(s[0]) + walk_val(s.skip(1))
    }
}

pub proof fn lemma_walk_val_nonneg(s: Seq<Roman>)
    ensures
        walk_val(s) >= 0,
    decreases s.len(),
{
    if s.len() >= 2 {
        if value(s[0]) < value(s[1]) {
            lemma_walk_val_nonneg(s.skip(2));
        } else {
            lemma_walk_val_nonneg(s.skip(1));
        }
    }
}

/// The symbol a single character denotes, if any.
pub open spec fn symbol_of_char(c: char) -> Option<Roman> {
    if c == 'I' {
        Some(Roman::I)
    } else if c == 'V' {
        Some(Roman::V)
    } else if c == 'X' {
        Some(Roman::X)
    } else if c == 'L' {
        Some(Roman::L)
    } else if c == 'C' {
        Some(Roman::C)
    } else if c == 'D' {
        Some(Roman::D)
    } else if c == 'M' {
        Some(Roman::M)
    } else {
        None
    }
}

/// The symbol a token denotes: after trimming it must be exactly one of the
/// seven symbol characters.
pub open spec fn symbol_of(s: Seq<char>) -> Option<Roman> {
    let t = text::spec_trim(s);
    if t.len() == 1 {
        symbol_of_char(t[0])
    } else {
        None
    }
}

/// Every character of `s` denotes a symbol.
pub open spec fn all_symbol_chars(s: Seq<char>) -> bool {
    forall|i: int| 0 <= i < s.len() ==> symbol_of_char(s[i]) is Some
}

/// The symbols the characters of `s` denote (an arbitrary symbol standing
/// in where a character denotes none).
pub open spec fn romans_of(s: Seq<char>) -> Seq<Roman> {
    Seq::new(
        s.len(),
        |i: int|
            match symbol_of_char(s[i]) {
                Some(r) => r,
                None => Roman::I,
            },
    )
}

impl Roman {
    /// The numeric value of this symbol.
    pub fn value(&self) -> (v: u32)
        ensures
            v as int == value(*self),
    {
        match self {
            Roman::I => 1,
            Roman::V => 5,
            Roman::X => 10,
            Roman::L => 50,
            Roman::C => 100,
            Roman::D => 500,
            Roman::M => 1000,
        }
    }

    /// This symbol may stand directly before `b` as a subtractive pair.
    pub fn can_subtract(&self, b: &Roman) -> (r: bool)
        ensures
            r == can_subtract_spec(*self, *b),
    {
        match (self, b) {
            (Roman::I, Roman::V) => true,
            (Roman::I, Roman::X) => true,
            (Roman::X, Roman::L) => true,
            (Roman::X, Roman::C) => true,
            (Roman::C, Roman::D) => true,
            (Roman::C, Roman::M) => true,
            _ => false,
        }
    }

    /// The symbol one character denotes, if any.
    pub fn parse_char(c: char) -> (r: Option<Roman>)
        ensures
            r == symbol_of_char(c),
    {
        if c == 'I' {
            Some(Roman::I)
        } else if c == 'V' {
            Some(Roman::V)
        } else if c == 'X' {
            Some(Roman::X)
        } else if c == 'L' {
            Some(Roman::L)
        } else if c == 'C' {
            Some(Roman::C)
        } else if c == 'D' {
            Some(Roman::D)
        } else if c == 'M' {
            Some(Roman::M)
        } else {
            None
        }
    }

    /// Parse a whitespace-trimmed token as a single symbol.
    pub fn parse_symbol_chars(cs: &Vec<char>) -> (r: Result<Roman, Error>)
        ensures
            match r {
                Ok(x) => symbol_of(cs@) == Some(x),
                Err(e) => symbol_of(cs@) is None && e.kind() == Kind::InvalidSymbol,
            },
    {
        let t = text::trim_chars(cs);
        if t.len() == 1 {
            match Roman::parse_char(t[0]) {
                Some(r) => Ok(r),
                None => Err(symbol_error(cs)),
            }
        } else {
            Err(symbol_error(cs))
        }
    }

    /// Parse a token (trimmed of surrounding whitespace) as a single symbol.
    pub fn try_from_str(value: &str) -> (r: Result<Roman, Error>)
        ensures
            match r {
                Ok(x) => symbol_of(value@) == Some(x),
                Err(e) => symbol_of(value@) is None && e.kind() == Kind::InvalidSymbol,
            },
    {
        let cs = text::chars_of_str(value);
        Roman::parse_symbol_chars(&cs)
    }
}

/// Validation and summation of a sequence of symbols.
pub trait VecRoman where Self: View<V = Seq<Roman>> {
    /// Sum the sequence: validate it against the formation rules, then
    /// walk it left to right.
    #[verifier::rlimit(50)]
    fn sum(&self) -> (r: Result<i32, Error>)
        ensures
            r is Ok <==> numeral_ok(self@) && walk_val(self@) <= i32::MAX,
            (match r {
                Ok(n) => n == walk_val(self@) && n >= 0,
                Err(e) => e.kind() == Kind::InvalidNumeral,
            }),
    ;

    /// Check the formation rules: repetition and ordering.
    fn validate(&self) -> (r: Result<(), Error>)
        ensures
            r is Ok <==> numeral_ok(self@),
            (match r {
                Ok(_) => true,
                Err(e) => e.kind() == Kind::InvalidNumeral,
            }),
    ;

    /// Parse a string of symbol characters.
    fn from_str(s: &str) -> (r: Result<Vec<Roman>, Error>)
        ensures
            (match r {
                Ok(v) => all_symbol_chars(s@) && v@ == romans_of(s@),
                Err(e) => !all_symbol_chars(s@) && e.kind() == Kind::InvalidSymbol,
            }),
    ;
}

/// An `InvalidSymbol` failure naming the offending token.
fn symbol_error(cs: &Vec<char>) -> (e: Error)
    ensures
        e.kind() == Kind::InvalidSymbol,
{
    let mut msg = text::chars_of_str("invalid roman value: ");
    text::append_chars(&mut msg, cs);
    Error::InvalidSymbol(text::string_from_chars(&msg))
}

/// The character that denotes a symbol, for error messages.
fn symbol_char(r: Roman) -> char {
    match r {
        Roman::I => 'I',
        Roman::V => 'V',
        Roman::X => 'X',
        Roman::L => 'L',
        Roman::C => 'C',
        Roman::D => 'D',
        Roman::M => 'M',
    }
}

/// An `InvalidNumeral` failure naming one offending symbol.
fn numeral_error(before: &str, r: Roman, after: &str) -> (e: Error)
    ensures
        e.kind() == Kind::InvalidNumeral,
{
    let mut msg = text::chars_of_str(before);
    msg.push(symbol_char(r));
    let tail = text::chars_of_str(after);
    text::append_chars(&mut msg, &tail);
    Error::InvalidNumeral(text::string_from_chars(&msg))
}

/// An `InvalidNumeral` failure naming two offending symbols.
fn numeral_error2(before: &str, a: Roman, mid: &str, b: Roman, after: &str) -> (e: Error)
    ensures
        e.kind() == Kind::InvalidNumeral,
{
    let mut msg = text::chars_of_str(before);
    msg.push(symbol_char(a));
    let m = text::chars_of_str(mid);
    text::append_chars(&mut msg, &m);
    msg.push(symbol_char(b));
    let tail = text::chars_of_str(after);
    text::append_chars(&mut msg, &tail);
    Error::InvalidNumeral(text::string_from_chars(&msg))
}

impl VecRoman for Vec<Roman> {
    #[verifier::rlimit(50)]
    fn validate(&self) -> (r: Result<(), Error>)
    {
        let n = self.len();
        for i in 0..n
            invariant
                n == self@.len(),
                forall|j: int|
                    #![trigger self@[j], self@[j + 3]]
                    0 <= j < i && j + 3 < n ==> !(self@[j + 1] == self@[j] && self@[j + 2]
                        == self@[j] && self@[j + 3] == self@[j]),
        {
            if n - i > 3 && self[i + 1] == self[i] && self[i + 2] == self[i] && self[i + 3]
                == self[i] {
                return Err(
                    numeral_error("the symbol ", self[i], " was repeated more than 3 times"),
                );
            }
        }
        for j in 0..n
            invariant
                n == self@.len(),
                forall|a: int, b: int|
                    #![trigger self@[a], self@[b]]
                    0 <= a < b < j && !repeatable(self@[a]) ==> self@[b] != self@[a],
        {
            let r = self[j];
            let rep = match r {
                Roman::I | Roman::X | Roman::C | Roman::M => true,
                Roman::V | Roman::L | Roman::D => false,
            };
            if !rep {
                for i in 0..j
                    invariant
                        n == self@.len(),
                        j < n,
                        r == self@[j as int],
                        !repeatable(self@[j as int]),
                        forall|a: int| 0 <= a < i ==> self@[a] != self@[j as int],
                {
                    if self[i] == self[j] {
                        return Err(numeral_error("the symbol ", r, " may appear only once"));
                    }
                }
            }
        }
        for i in 0..n
            invariant
                n == self@.len(),
                forall|j: int|
                    #![trigger self@[j], self@[j + 1]]
                    0 <= j < i && j + 1 < n && value(self@[j]) < value(self@[j + 1])
                        ==> can_subtract_spec(self@[j], self@[j + 1]),
                forall|j: int|
                    #![trigger self@[j], self@[j + 2]]
                    0 <= j && j + 1 < i && j + 2 < n && value(self@[j + 1]) < value(self@[j + 2])
                        ==> value(self@[j]) >= value(self@[j + 2]),
        {
            if n - i > 1 {
                let cur = self[i];
                let next = self[i + 1];
                if cur.value() < next.value() {
                    if !cur.can_subtract(&next) {
                        return Err(
                            numeral_error2(
                                "the symbols ",
                                cur,
                                " and ",
                                next,
                                " do not form a subtractive pair",
                            ),
                        );
                    }
                    if i >= 1 {
                        let prev = self[i - 1];
                        if prev.value() < next.value() {
                            assert(!pairs_ok(self@)) by {
                                assert(value(self@[i - 1]) < value(self@[i - 1 + 2]));
                            }
                            return Err(
                                numeral_error2(
                                    "the symbol ",
                                    prev,
                                    " two places before ",
                                    next,
                                    " is smaller",
                                ),
                            );
                        }
                    }
                }
            }
        }
        Ok(())
    }

    #[verifier::rlimit(50)]
    fn sum(&self) -> (r: Result<i32, Error>)
    {
        match self.validate() {
            Err(e) => {
                return Err(e);
            },
            Ok(_) => {},
        }
        let n = self.len();
        let mut total: i32 = 0;
        let mut count: usize = 0;
        proof {
            assert(self@.skip(0) =~= self@);
        }
        while count < n
            invariant
                n == self@.len(),
                count <= n,
                0 <= total,
                walk_val(self@) == total + walk_val(self@.skip(count as int)),
            decreases n - count,
        {
            let ghost tail = self@.skip(count as int);
            let cur = self[count];
            assert(tail[0] == self@[count as int]);
            if count + 1 < n {
                let next = self[count + 1];
                assert(tail[1] == self@[count + 1]);
                if cur.value() < next.value() {
                    proof {
                        assert(tail.skip(2) =~= self@.skip(count + 2));
                        lemma_walk_val_nonneg(self@.skip(count + 2));
                    }
                    let add = next.value() - cur.value();
                    if total > i32::MAX - (add as i32) {
                        return Err(
                            Error::InvalidNumeral("the summed value is out of range".to_owned()),
                        );
                    }
                    total = total + (add as i32);
                    count = count + 2;
                } else {
                    proof {
                        assert(tail.skip(1) =~= self@.skip(count + 1));
                        lemma_walk_val_nonneg(self@.skip(count + 1));
                    }
                    let add = cur.value();
                    if total > i32::MAX - (add as i32) {
                        return Err(
                            Error::InvalidNumeral("the summed value is out of range".to_owned()),
                        );
                    }
                    total = total + (add as i32);
                    count = count + 1;
                }
            } else {
                assert(tail.len() == 1);
                let add = cur.value();
                if total > i32::MAX - (add as i32) {
                    return Err(Error::InvalidNumeral("the summed value is out of range".to_owned()));
                }
                proof {
                    assert(self@.skip(count + 1) =~= Seq::<Roman>::empty());
                }
                total = total + (add as i32);
                count = count + 1;
            }
        }
        proof {
            assert(self@.skip(n as int) =~= Seq::<Roman>::empty());
        }
        Ok(total)
    }

    fn from_str(s: &str) -> (r: Result<Vec<Roman>, Error>)
    {
        let cs = text::chars_of_str(s);
        let n = cs.len();
        let mut out: Vec<Roman> = Vec::new();
        for i in 0..n
            invariant
                n == cs@.len(),
                cs@ == s@,
                forall|j: int| 0 <= j < i ==> symbol_of_char(s@[j]) is Some,
                out@ =~= romans_of(s@).take(i as int),
        {
            match Roman::parse_char(cs[i]) {
                Some(r) => {
                    out.push(r);
                    proof {
                        assert(out@ =~= romans_of(s@).take(i + 1));
                    }
                },
                None => {
                    let mut msg = text::chars_of_str("invalid roman value: ");
                    msg.push(cs[i]);
                    return Err(Error::InvalidSymbol(text::string_from_chars(&msg)));
                },
            }
        }
        proof {
            assert(out@ =~= romans_of(s@));
        }
        Ok(out)
    }
}

} // verus!
