//! The sentence resolver: ingests statements that bind words to Roman
//! symbols or phrases to credit amounts, and answers the two question
//! forms, inferring the credit value of one unknown unit word per
//! question.

use vstd::prelude::*;

use crate::error::{Error, Kind};
use crate::numbers;
use crate::roman::{self, Roman, VecRoman};
use crate::text;

verus! {

/// First value bound to key `k`, scanning the entries front to back.
pub open spec fn lookup<V>(es: Seq<(Seq<char>, V)>, k: Seq<char>) -> Option<V>
    decreases es.len(),
{
    if es.len() == 0 {
        None
    } else if es[0].0 == k {
        Some(es[0].1)
    } else {
        lookup(es.skip(1), k)
    }
}

/// Bind `k` to `a`, overwriting the entry for `k` in place if one exists
/// and appending otherwise.
pub open spec fn store_credit(es: Seq<(Seq<char>, int)>, k: Seq<char>, a: int) -> Seq<
    (Seq<char>, int),
>
    decreases es.len(),
{
    if es.len() == 0 {
        seq![(k, a)]
    } else if es[0].0 == k {
        seq![(k, a)] + es.skip(1)
    } else {
        seq![es[0]] + store_credit(es.skip(1), k, a)
    }
}

/// The first word of `toks` that is not bound to a symbol.
pub open spec fn first_unknown(
    words: Seq<(Seq<char>, Roman)>,
    toks: Seq<Seq<char>>,
) -> Option<Seq<char>>
    decreases toks.len(),
{
    if toks.len() == 0 {
        None
    } else if lookup(words, toks[0]) is None {
        Some(toks[0])
    } else {
        first_unknown(words, toks.skip(1))
    }
}

/// The symbols bound to the words of `toks`, in order, skipping unbound
/// words.
pub open spec fn bound_romans(words: Seq<(Seq<char>, Roman)>, toks: Seq<Seq<char>>) -> Seq<Roman>
    decreases toks.len(),
{
    if toks.len() == 0 {
        Seq::empty()
    } else {
        (match lookup(words, toks[0]) {
            Some(r) => seq![r],
            None => Seq::empty(),
        }) + bound_romans(words, toks.skip(1))
    }
}

/// The words of `toks` not bound to a symbol, in order, with repetitions.
pub open spec fn unknown_words(words: Seq<(Seq<char>, Roman)>, toks: Seq<Seq<char>>) -> Seq<
    Seq<char>,
>
    decreases toks.len(),
{
    if toks.len() == 0 {
        Seq::empty()
    } else {
        (if lookup(words, toks[0]) is None {
            seq![toks[0]]
        } else {
            Seq::empty()
        }) + unknown_words(words, toks.skip(1))
    }
}

/// All entries of `ts` are the same word.
pub open spec fn all_same(ts: Seq<Seq<char>>) -> bool {
    forall|i: int| #![trigger ts[i]] 0 <= i < ts.len() ==> ts[i] == ts[0]
}

/// The first stored credit phrase that contains `w` as a substring.
pub open spec fn find_credit_entry(cs: Seq<(Seq<char>, int)>, w: Seq<char>) -> Option<
    (Seq<char>, int),
>
    decreases cs.len(),
{
    if cs.len() == 0 {
        None
    } else if text::contains_seq(cs[0].0, w) {
        Some(cs[0])
    } else {
        find_credit_entry(cs.skip(1), w)
    }
}

/// A credit-per-unit multiplier can be inferred for `w`: some stored
/// phrase contains it, and the symbols bound to that phrase's words sum to
/// a positive value in range.
pub open spec fn infer_ok(
    words: Seq<(Seq<char>, Roman)>,
    cs: Seq<(Seq<char>, int)>,
    w: Seq<char>,
) -> bool {
    match find_credit_entry(cs, w) {
        None => false,
        Some(e) => {
            let rs = bound_romans(words, text::spec_split_ws(e.0));
            &&& roman::numeral_ok(rs)
            &&& 0 < roman::walk_val(rs) <= i32::MAX
        },
    }
}

/// The inferred multiplier for `w`, as the exact fraction
/// (stored amount, numeral sum of the stored phrase).
pub open spec fn infer_val(
    words: Seq<(Seq<char>, Roman)>,
    cs: Seq<(Seq<char>, int)>,
    w: Seq<char>,
) -> (int, int) {
    match find_credit_entry(cs, w) {
        None => (0, 1),
        Some(e) => (e.1, roman::walk_val(bound_romans(words, text::spec_split_ws(e.0)))),
    }
}

/// The first word of `unk` for which no multiplier can be inferred.
pub open spec fn first_uninferred(
    words: Seq<(Seq<char>, Roman)>,
    cs: Seq<(Seq<char>, int)>,
    unk: Seq<Seq<char>>,
) -> Option<Seq<char>>
    decreases unk.len(),
{
    if unk.len() == 0 {
        None
    } else if !infer_ok(words, cs, unk[0]) {
        Some(unk[0])
    } else {
        first_uninferred(words, cs, unk.skip(1))
    }
}

/// The phrase a question asks about: the line with the question prefix and
/// every question mark removed and trailing whitespace trimmed.
pub open spec fn question_text(line: Seq<char>, prefix: Seq<char>) -> Seq<char> {
    text::spec_trim_end(text::spec_remove_all(text::spec_remove_all(line, prefix), "?"@))
}

/// What one input line does: whether it succeeds, the failure kind when it
/// does not, the answer it returns, and the mappings it leaves behind.
pub struct Step {
    pub ok: bool,
    pub kind: Kind,
    pub answer: Option<Seq<char>>,
    pub words: Seq<(Seq<char>, Roman)>,
    pub credits: Seq<(Seq<char>, int)>,
}

pub open spec fn fail_step(
    words: Seq<(Seq<char>, Roman)>,
    credits: Seq<(Seq<char>, int)>,
    kind: Kind,
) -> Step {
    Step { ok: false, kind: kind, answer: None, words: words, credits: credits }
}

/// A statement either stores a credit phrase, binds a fresh single word to
/// a symbol, or fails.
pub open spec fn spec_statement(
    words: Seq<(Seq<char>, Roman)>,
    credits: Seq<(Seq<char>, int)>,
    line: Seq<char>,
) -> Step {
    if text::spec_count_occ(line, " is "@) != 1 {
        fail_step(words, credits, Kind::InvalidInput)
    } else {
        let f = text::spec_find(line, " is "@);
        let key = line.take(f);
        let value = line.skip(f + " is "@.len());
        if text::contains_seq(value, "Credits"@) {
            match numbers::spec_parse_i32(
                text::spec_trim(text::spec_remove_all(value, "Credits"@)),
            ) {
                Some(a) => Step {
                    ok: true,
                    kind: Kind::InvalidInput,
                    answer: None,
                    words: words,
                    credits: store_credit(credits, key, a),
                },
                None => fail_step(words, credits, Kind::NumberFormat),
            }
        } else {
            match roman::symbol_of(value) {
                None => fail_step(words, credits, Kind::InvalidSymbol),
                Some(r) => {
                    if text::spec_split_ws(key).len() > 1 {
                        fail_step(words, credits, Kind::InvalidInput)
                    } else if lookup(words, key) is Some {
                        fail_step(words, credits, Kind::InvalidInput)
                    } else {
                        Step {
                            ok: true,
                            kind: Kind::InvalidInput,
                            answer: None,
                            words: words.push((key, r)),
                            credits: credits,
                        }
                    }
                },
            }
        }
    }
}

/// Answer "how much is <phrase> ?": every word must be bound, and the
/// symbols must sum; the answer is "<phrase> is <sum>".
pub open spec fn spec_how_much(
    words: Seq<(Seq<char>, Roman)>,
    credits: Seq<(Seq<char>, int)>,
    line: Seq<char>,
) -> Step {
    let txt = question_text(line, "how much is "@);
    let toks = text::spec_split_ws(txt);
    if first_unknown(words, toks) is Some {
        fail_step(words, credits, Kind::InvalidInput)
    } else {
        let rs = bound_romans(words, toks);
        if !(roman::numeral_ok(rs) && roman::walk_val(rs) <= i32::MAX) {
            fail_step(words, credits, Kind::InvalidNumeral)
        } else {
            Step {
                ok: true,
                kind: Kind::InvalidInput,
                answer: Some(txt + " is "@ + numbers::dec_digits(roman::walk_val(rs))),
                words: words,
                credits: credits,
            }
        }
    }
}

/// Answer "how many Credits is <phrase> ?": the phrase must name exactly
/// one distinct unit word, every unit word must have an inferable
/// multiplier, and the bound symbols must sum; the answer is
/// "<phrase> is <sum times multiplier> Credits".
pub open spec fn spec_how_many(
    words: Seq<(Seq<char>, Roman)>,
    credits: Seq<(Seq<char>, int)>,
    line: Seq<char>,
) -> Step {
    let txt = question_text(line, "how many Credits is "@);
    let toks = text::spec_split_ws(txt);
    let unk = unknown_words(words, toks);
    if unk.len() == 0 {
        fail_step(words, credits, Kind::InvalidInput)
    } else if first_uninferred(words, credits, unk) is Some {
        fail_step(words, credits, Kind::InvalidInput)
    } else if !all_same(unk) {
        fail_step(words, credits, Kind::InvalidInput)
    } else {
        let rs = bound_romans(words, toks);
        if !(roman::numeral_ok(rs) && roman::walk_val(rs) <= i32::MAX) {
            fail_step(words, credits, Kind::InvalidNumeral)
        } else {
            let av = infer_val(words, credits, unk[0]);
            Step {
                ok: true,
                kind: Kind::InvalidInput,
                answer: Some(
                    txt + " is "@ + numbers::spec_rat_str(roman::walk_val(rs) * av.0, av.1)
                        + " Credits"@,
                ),
                words: words,
                credits: credits,
            }
        }
    }
}

/// A question is routed by its prefix; one with neither recognised prefix
/// fails.
pub open spec fn spec_question(
    words: Seq<(Seq<char>, Roman)>,
    credits: Seq<(Seq<char>, int)>,
    line: Seq<char>,
) -> Step {
    if text::contains_seq(line, "how much is "@) {
        spec_how_much(words, credits, line)
    } else if text::contains_seq(line, "how many Credits is "@) {
        spec_how_many(words, credits, line)
    } else {
        fail_step(words, credits, Kind::InvalidInput)
    }
}

/// What one input line does: lines containing "how" or a question mark are
/// questions, everything else is a statement.
pub open spec fn spec_step(
    words: Seq<(Seq<char>, Roman)>,
    credits: Seq<(Seq<char>, int)>,
    line: Seq<char>,
) -> Step {
    if text::contains_seq(line, "how"@) || text::contains_seq(line, "?"@) {
        spec_question(words, credits, line)
    } else {
        spec_statement(words, credits, line)
    }
}

/// An `InvalidInput` failure listing every distinct word of `unk`.
fn too_many_words_error(unk: &Vec<Vec<char>>) -> (e: Error)
    ensures
        e.kind() == Kind::InvalidInput,
{
    let mut distinct: Vec<Vec<char>> = Vec::new();
    let mut x: usize = 0;
    while x < unk.len()
        invariant
            x <= unk@.len(),
        decreases unk@.len() - x,
    {
        let mut seen = false;
        let mut y: usize = 0;
        while y < distinct.len()
            invariant
                y <= distinct@.len(),
                x < unk@.len(),
        decreases distinct@.len() - y,
        {
            if text::eq_chars(&distinct[y], &unk[x]) {
                seen = true;
            }
            y = y + 1;
        }
        if !seen {
            let w = unk[x].clone();
            distinct.push(w);
        }
        x = x + 1;
    }
    let mut msg = text::chars_of_str("too many credit indicator words found in the question: ");
    let mut z: usize = 0;
    while z < distinct.len()
        invariant
            z <= distinct@.len(),
        decreases distinct@.len() - z,
    {
        if z > 0 {
            let sep = text::chars_of_str(", ");
            text::append_chars(&mut msg, &sep);
        }
        text::append_chars(&mut msg, &distinct[z]);
        z = z + 1;
    }
    Error::InvalidInput(text::string_from_chars(&msg))
}

/// An `InvalidInput` failure naming the raw line.
fn line_error(before: &str, line: &Vec<char>) -> (e: Error)
    ensures
        e.kind() == Kind::InvalidInput,
{
    let mut msg = text::chars_of_str(before);
    text::append_chars(&mut msg, line);
    Error::InvalidInput(text::string_from_chars(&msg))
}

/// The resolver: owns the two mappings built from statements.
pub struct MerchantsGuide {
    sentence_credits: Vec<(Vec<char>, i32)>,
    word_roman_values: Vec<(Vec<char>, Roman)>,
}

impl MerchantsGuide {
    /// The word-to-symbol entries, in insertion order.
    pub closed spec fn words(&self) -> Seq<(Seq<char>, Roman)> {
        self.word_roman_values@.map_values(|p: (Vec<char>, Roman)| (p.0@, p.1))
    }

    /// The phrase-to-credit entries, in insertion order.
    pub closed spec fn credits(&self) -> Seq<(Seq<char>, int)> {
        self.sentence_credits@.map_values(|p: (Vec<char>, i32)| (p.0@, p.1 as int))
    }

    /// A fresh resolver with no bindings.
    pub fn new() -> (g: MerchantsGuide)
        ensures
            g.words() == Seq::<(Seq<char>, Roman)>::empty(),
            g.credits() == Seq::<(Seq<char>, int)>::empty(),
    {
        let g = MerchantsGuide { sentence_credits: Vec::new(), word_roman_values: Vec::new() };
        proof {
            assert(g.words() =~= Seq::<(Seq<char>, Roman)>::empty());
            assert(g.credits() =~= Seq::<(Seq<char>, int)>::empty());
        }
        g
    }

    /// The symbol bound to `w`, if any.
    fn lookup_word(&self, w: &Vec<char>) -> (r: Option<Roman>)
        ensures
            r == lookup(self.words(), w@),
    {
        let n = self.word_roman_values.len();
        proof {
            assert(self.words().skip(0) =~= self.words());
        }
        for i in 0..n
            invariant
                n == self.word_roman_values@.len(),
                n == self.words().len(),
                lookup(self.words(), w@) == lookup(self.words().skip(i as int), w@),
        {
            let e = &self.word_roman_values[i];
            proof {
                assert(self.words()[i as int] == (e.0@, e.1));
                assert(self.words().skip(i as int)[0] == self.words()[i as int]);
                assert(self.words().skip(i as int).skip(1) =~= self.words().skip(i + 1));
            }
            if text::eq_chars(&e.0, w) {
                return Some(e.1);
            }
        }
        proof {
            assert(self.words().skip(n as int) =~= Seq::<(Seq<char>, Roman)>::empty());
        }
        None
    }

    /// Store a credit phrase, overwriting in place on a duplicate key.
    #[verifier::rlimit(50)]
    fn store_credit_entry(&mut self, k: Vec<char>, a: i32)
        ensures
            final(self).credits() == store_credit(old(self).credits(), k@, a as int),
            final(self).words() == old(self).words(),
    {
        let ghost kg = k@;
        let n = self.sentence_credits.len();
        proof {
            assert(old(self).credits().skip(0) =~= old(self).credits());
        }
        for i in 0..n
            invariant
                self == old(self),
                n == self.sentence_credits@.len(),
                n == self.credits().len(),
                kg == k@,
                store_credit(self.credits(), kg, a as int) == self.credits().take(i as int)
                    + store_credit(self.credits().skip(i as int), kg, a as int),
                forall|j: int| 0 <= j < i ==> self.credits()[j].0 != kg,
        {
            let eq = text::eq_chars(&self.sentence_credits[i].0, &k);
            proof {
                assert(self.credits()[i as int] == (self.sentence_credits@[i as int].0@,
                self.sentence_credits@[i as int].1 as int));
                assert(self.credits().skip(i as int)[0] == self.credits()[i as int]);
                assert(self.credits().skip(i as int).skip(1) =~= self.credits().skip(i + 1));
            }
            if eq {
                proof {
                    assert(store_credit(self.credits().skip(i as int), kg, a as int) == seq![
                        (kg, a as int),
                    ] + self.credits().skip(i + 1));
                }
                self.sentence_credits.set(i, (k, a));
                proof {
                    assert(self.credits() =~= old(self).credits().update(
                        i as int,
                        (kg, a as int),
                    ));
                    assert(self.credits() =~= old(self).credits().take(i as int) + (seq![
                        (kg, a as int),
                    ] + old(self).credits().skip(i + 1)));
                    assert(self.words() =~= old(self).words());
                }
                return ;
            }
            proof {
                assert(self.credits().take(i + 1) =~= self.credits().take(i as int).push(
                    self.credits()[i as int],
                ));
                assert(self.credits().take(i as int) + (seq![self.credits()[i as int]]
                    + store_credit(self.credits().skip(i + 1), kg, a as int)) =~= self.credits().take(
                    i + 1,
                ) + store_credit(self.credits().skip(i + 1), kg, a as int));
            }
        }
        proof {
            assert(self.credits().skip(n as int) =~= Seq::<(Seq<char>, int)>::empty());
        }
        self.sentence_credits.push((k, a));
        proof {
            assert(self.credits() =~= old(self).credits().push((kg, a as int)));
            assert(old(self).credits().take(n as int) =~= old(self).credits());
            assert(old(self).credits() + seq![(kg, a as int)] =~= old(self).credits().push(
                (kg, a as int),
            ));
            assert(self.words() =~= old(self).words());
        }
    }

    /// Route one statement line.
    pub fn handle_statement(&mut self, line: &Vec<char>) -> (r: Result<(), Error>)
        ensures
            ({
                let st = spec_statement(old(self).words(), old(self).credits(), line@);
                &&& final(self).words() == st.words
                &&& final(self).credits() == st.credits
                &&& (match r {
                    Ok(()) => st.ok,
                    Err(e) => !st.ok && e.kind() == st.kind,
                })
            }),
    {
        let sep = text::chars_of_str(" is ");
        proof {
            reveal_strlit(" is ");
        }
        let cnt = text::count_occ_capped(line, &sep);
        if cnt != 1 {
            return Err(
                line_error("the statement must contain the separator \" is \" exactly once: ", line),
            );
        }
        let f = match text::find_chars(line, &sep) {
            Some(i) => i,
            None => {
                proof {
                    text::lemma_count_find(line@, sep@);
                }
                return Err(line_error("no value after the \"is\" keyword: ", line));
            },
        };
        proof {
            text::lemma_find_charac(line@, sep@);
            assert(text::match_at(line@, sep@, f as int));
        }
        let llen = line.len();
        let key = text::subrange_chars(line, 0, f);
        let value = text::subrange_chars(line, f + 4, llen);
        proof {
            assert(key@ =~= line@.take(f as int));
            assert(value@ =~= line@.skip(f + " is "@.len()));
        }
        let credits_pat = text::chars_of_str("Credits");
        proof {
            reveal_strlit("Credits");
        }
        if text::contains_chars(&value, &credits_pat) {
            let stripped = text::remove_all_chars(&value, &credits_pat);
            let trimmed = text::trim_chars(&stripped);
            match numbers::parse_i32_chars(&trimmed) {
                Some(a) => {
                    self.store_credit_entry(key, a);
                    Ok(())
                },
                None => Err(Error::NumberFormat("the credit amount is not an integer".to_owned())),
            }
        } else {
            match Roman::parse_symbol_chars(&value) {
                Err(e) => Err(e),
                Ok(r) => {
                    let words = text::split_ws_chars(&key);
                    if words.len() > 1 {
                        return Err(
                            Error::InvalidInput(
                                "a numeral binding must use a single word".to_owned(),
                            ),
                        );
                    }
                    if self.lookup_word(&key).is_some() {
                        let mut msg = text::chars_of_str("the word ");
                        text::append_chars(&mut msg, &key);
                        let tail = text::chars_of_str(" has already been assigned");
                        text::append_chars(&mut msg, &tail);
                        return Err(Error::InvalidInput(text::string_from_chars(&msg)));
                    }
                    let ghost kg = key@;
                    self.word_roman_values.push((key, r));
                    proof {
                        assert(self.words() =~= old(self).words().push((kg, r)));
                        assert(self.credits() =~= old(self).credits());
                    }
                    Ok(())
                },
            }
        }
    }

    /// The phrase a question asks about, with the prefix and question
    /// marks removed.
    pub fn format_question(line: &Vec<char>, q: &Vec<char>) -> (r: Vec<char>)
        requires
            q@.len() >= 1,
        ensures
            r@ == question_text(line@, q@),
    {
        let no_prefix = text::remove_all_chars(line, q);
        let qm = text::chars_of_str("?");
        proof {
            reveal_strlit("?");
        }
        let no_marks = text::remove_all_chars(&no_prefix, &qm);
        text::trim_end_chars(&no_marks)
    }

    /// The symbols bound to the given words; the first unbound word is a
    /// failure.
    pub fn words_to_roman(&self, toks: &Vec<Vec<char>>) -> (r: Result<Vec<Roman>, Error>)
        ensures
            ({
                let ts = text::views_of(toks@);
                match r {
                    Ok(v) => first_unknown(self.words(), ts) is None && v@ == bound_romans(
                        self.words(),
                        ts,
                    ),
                    Err(e) => first_unknown(self.words(), ts) is Some && e.kind()
                        == Kind::InvalidInput,
                }
            }),
    {
        let ghost ts = text::views_of(toks@);
        let n = toks.len();
        let mut out: Vec<Roman> = Vec::new();
        proof {
            assert(ts.skip(0) =~= ts);
        }
        for i in 0..n
            invariant
                n == toks@.len(),
                ts == text::views_of(toks@),
                ts.len() == n,
                first_unknown(self.words(), ts) == first_unknown(
                    self.words(),
                    ts.skip(i as int),
                ),
                bound_romans(self.words(), ts) == out@ + bound_romans(
                    self.words(),
                    ts.skip(i as int),
                ),
        {
            proof {
                assert(ts[i as int] == toks@[i as int]@);
                assert(ts.skip(i as int)[0] == ts[i as int]);
                assert(ts.skip(i as int).skip(1) =~= ts.skip(i + 1));
            }
            match self.lookup_word(&toks[i]) {
                Some(rm) => {
                    out.push(rm);
                    proof {
                        assert(bound_romans(self.words(), ts) =~= out@ + bound_romans(
                            self.words(),
                            ts.skip(i + 1),
                        ));
                    }
                },
                None => {
                    let mut msg = text::chars_of_str("the word ");
                    text::append_chars(&mut msg, &toks[i]);
                    let tail = text::chars_of_str(" is not defined");
                    text::append_chars(&mut msg, &tail);
                    return Err(Error::InvalidInput(text::string_from_chars(&msg)));
                },
            }
        }
        proof {
            assert(ts.skip(n as int) =~= Seq::<Seq<char>>::empty());
            assert(out@ + Seq::<Roman>::empty() =~= out@);
        }
        Ok(out)
    }

    /// The symbols bound to the given words, skipping unbound ones.
    fn bound_roman_vec(&self, toks: &Vec<Vec<char>>) -> (r: Vec<Roman>)
        ensures
            r@ == bound_romans(self.words(), text::views_of(toks@)),
    {
        let ghost ts = text::views_of(toks@);
        let n = toks.len();
        let mut out: Vec<Roman> = Vec::new();
        proof {
            assert(ts.skip(0) =~= ts);
        }
        for i in 0..n
            invariant
                n == toks@.len(),
                ts == text::views_of(toks@),
                ts.len() == n,
                bound_romans(self.words(), ts) == out@ + bound_romans(
                    self.words(),
                    ts.skip(i as int),
                ),
        {
            proof {
                assert(ts[i as int] == toks@[i as int]@);
                assert(ts.skip(i as int)[0] == ts[i as int]);
                assert(ts.skip(i as int).skip(1) =~= ts.skip(i + 1));
            }
            match self.lookup_word(&toks[i]) {
                Some(rm) => {
                    out.push(rm);
                    proof {
                        assert(bound_romans(self.words(), ts) =~= out@ + bound_romans(
                            self.words(),
                            ts.skip(i + 1),
                        ));
                    }
                },
                None => {},
            }
        }
        proof {
            assert(ts.skip(n as int) =~= Seq::<Seq<char>>::empty());
            assert(out@ + Seq::<Roman>::empty() =~= out@);
        }
        out
    }

    /// The words of the phrase that are not bound to a symbol, in order.
    pub fn get_unknown_words(&self, toks: &Vec<Vec<char>>) -> (r: Vec<Vec<char>>)
        ensures
            text::views_of(r@) == unknown_words(self.words(), text::views_of(toks@)),
    {
        let ghost ts = text::views_of(toks@);
        let n = toks.len();
        let mut out: Vec<Vec<char>> = Vec::new();
        proof {
            assert(ts.skip(0) =~= ts);
            assert(text::views_of(out@) + unknown_words(self.words(), ts) =~= unknown_words(
                self.words(),
                ts,
            ));
        }
        for i in 0..n
            invariant
                n == toks@.len(),
                ts == text::views_of(toks@),
                ts.len() == n,
                unknown_words(self.words(), ts) == text::views_of(out@) + unknown_words(
                    self.words(),
                    ts.skip(i as int),
                ),
        {
            proof {
                assert(ts[i as int] == toks@[i as int]@);
                assert(ts.skip(i as int)[0] == ts[i as int]);
                assert(ts.skip(i as int).skip(1) =~= ts.skip(i + 1));
            }
            match self.lookup_word(&toks[i]) {
                Some(_) => {},
                None => {
                    let ghost before = out@;
                    let w = toks[i].clone();
                    out.push(w);
                    proof {
                        assert(text::views_of(out@) =~= text::views_of(before).push(
                            ts[i as int],
                        ));
                        assert(text::views_of(before).push(ts[i as int]) + unknown_words(
                            self.words(),
                            ts.skip(i + 1),
                        ) =~= text::views_of(before) + (seq![ts[i as int]] + unknown_words(
                            self.words(),
                            ts.skip(i + 1),
                        )));
                    }
                },
            }
        }
        proof {
            assert(ts.skip(n as int) =~= Seq::<Seq<char>>::empty());
            assert(text::views_of(out@) + Seq::<Seq<char>>::empty() =~= text::views_of(out@));
        }
        out
    }

    /// Infer the credit multiplier for `w` from the first stored phrase
    /// containing it, as the exact fraction amount / numeral sum.
    #[verifier::rlimit(50)]
    fn infer_word(&self, w: &Vec<char>) -> (r: Option<(i32, i32)>)
        ensures
            (match r {
                Some(p) => infer_ok(self.words(), self.credits(), w@) && (
                p.0 as int,
                p.1 as int,
                ) == infer_val(self.words(), self.credits(), w@) && p.1 >= 1,
                None => !infer_ok(self.words(), self.credits(), w@),
            }),
    {
        let n = self.sentence_credits.len();
        proof {
            assert(self.credits().skip(0) =~= self.credits());
        }
        for i in 0..n
            invariant
                n == self.sentence_credits@.len(),
                n == self.credits().len(),
                find_credit_entry(self.credits(), w@) == find_credit_entry(
                    self.credits().skip(i as int),
                    w@,
                ),
        {
            let e = &self.sentence_credits[i];
            proof {
                assert(self.credits()[i as int] == (e.0@, e.1 as int));
                assert(self.credits().skip(i as int)[0] == self.credits()[i as int]);
                assert(self.credits().skip(i as int).skip(1) =~= self.credits().skip(i + 1));
            }
            let hit = if w.len() == 0 {
                proof {
                    assert(e.0@.subrange(0, 0) =~= w@);
                    assert(text::match_at(e.0@, w@, 0));
                }
                true
            } else {
                text::contains_chars(&e.0, w)
            };
            if hit {
                let toks = text::split_ws_chars(&e.0);
                proof {
                    assert(text::views_of(toks@) =~= text::spec_split_ws(e.0@));
                }
                let romans = self.bound_roman_vec(&toks);
                match romans.sum() {
                    Ok(s) => {
                        if s > 0 {
                            return Some((e.1, s));
                        } else {
                            return None;
                        }
                    },
                    Err(_) => {
                        return None;
                    },
                }
            }
        }
        proof {
            assert(self.credits().skip(n as int) =~= Seq::<(Seq<char>, int)>::empty());
        }
        None
    }

    /// Answer a "how much is" question.
    pub fn handle_how_much(&self, line: &Vec<char>) -> (r: Result<Vec<char>, Error>)
        ensures
            ({
                let st = spec_how_much(self.words(), self.credits(), line@);
                match r {
                    Ok(a) => st.ok && st.answer == Some(a@),
                    Err(e) => !st.ok && e.kind() == st.kind,
                }
            }),
    {
        let q = text::chars_of_str("how much is ");
        proof {
            reveal_strlit("how much is ");
        }
        let textv = Self::format_question(line, &q);
        let toks = text::split_ws_chars(&textv);
        proof {
            assert(text::views_of(toks@) =~= text::spec_split_ws(textv@));
        }
        match self.words_to_roman(&toks) {
            Err(e) => Err(e),
            Ok(romans) => match romans.sum() {
                Err(e) => Err(e),
                Ok(n) => {
                    let mut ans = textv;
                    let isv = text::chars_of_str(" is ");
                    text::append_chars(&mut ans, &isv);
                    numbers::push_dec(&mut ans, n as u128);
                    Ok(ans)
                },
            },
        }
    }

    /// Answer a "how many Credits is" question.
    #[verifier::rlimit(50)]
    pub fn handle_how_many(&self, line: &Vec<char>) -> (r: Result<Vec<char>, Error>)
        ensures
            ({
                let st = spec_how_many(self.words(), self.credits(), line@);
                match r {
                    Ok(a) => st.ok && st.answer == Some(a@),
                    Err(e) => !st.ok && e.kind() == st.kind,
                }
            }),
    {
        let q = text::chars_of_str("how many Credits is ");
        proof {
            reveal_strlit("how many Credits is ");
        }
        let textv = Self::format_question(line, &q);
        let toks = text::split_ws_chars(&textv);
        proof {
            assert(text::views_of(toks@) =~= text::spec_split_ws(textv@));
        }
        let unk = self.get_unknown_words(&toks);
        let ghost useq = unknown_words(self.words(), text::views_of(toks@));
        proof {
            assert(useq == text::views_of(unk@));
        }
        let un = unk.len();
        if un == 0 {
            return Err(
                Error::InvalidInput("no credit indicator word found in the question".to_owned()),
            );
        }
        proof {
            assert(useq.skip(0) =~= useq);
        }
        for i in 0..un
            invariant
                un == unk@.len(),
                un >= 1,
                useq == text::views_of(unk@),
                useq.len() == un,
                useq == unknown_words(
                    self.words(),
                    text::spec_split_ws(question_text(line@, "how many Credits is "@)),
                ),
                first_uninferred(self.words(), self.credits(), useq) == first_uninferred(
                    self.words(),
                    self.credits(),
                    useq.skip(i as int),
                ),
        {
            proof {
                assert(useq[i as int] == unk@[i as int]@);
                assert(useq.skip(i as int)[0] == useq[i as int]);
                assert(useq.skip(i as int).skip(1) =~= useq.skip(i + 1));
            }
            match self.infer_word(&unk[i]) {
                None => {
                    let mut msg = text::chars_of_str("the unknown word ");
                    text::append_chars(&mut msg, &unk[i]);
                    let tail = text::chars_of_str(" was not found in any credit sentence");
                    text::append_chars(&mut msg, &tail);
                    return Err(Error::InvalidInput(text::string_from_chars(&msg)));
                },
                Some(_) => {},
            }
        }
        proof {
            assert(useq.skip(un as int) =~= Seq::<Seq<char>>::empty());
        }
        for i in 1..un
            invariant
                un == unk@.len(),
                un >= 1,
                useq == text::views_of(unk@),
                useq.len() == un,
                useq == unknown_words(
                    self.words(),
                    text::spec_split_ws(question_text(line@, "how many Credits is "@)),
                ),
                first_uninferred(self.words(), self.credits(), useq) is None,
                forall|j: int| #![trigger useq[j]] 0 <= j < i ==> useq[j] == useq[0],
        {
            proof {
                assert(useq[i as int] == unk@[i as int]@);
                assert(useq[0] == unk@[0]@);
            }
            if !text::eq_chars(&unk[i], &unk[0]) {
                return Err(too_many_words_error(&unk));
            }
        }
        assert(all_same(useq));
        proof {
            assert(useq[0] == unk@[0]@);
        }
        let pair = match self.infer_word(&unk[0]) {
            Some(p) => p,
            None => {
                proof {
                    assert(first_uninferred(self.words(), self.credits(), useq) is None);
                    assert(false);
                }
                return Err(Error::InvalidInput("the question cannot be answered".to_owned()));
            },
        };
        let romans = self.bound_roman_vec(&toks);
        match romans.sum() {
            Err(e) => Err(e),
            Ok(n) => {
                let a = pair.0;
                let s = pair.1;
                proof {
                    assert((n as int) * (a as int) <= 0x4000_0000_0000_0000
                        && (n as int) * (a as int) >= -0x4000_0000_0000_0000)
                        by (nonlinear_arith)
                        requires
                            0 <= n <= 0x7fff_ffff,
                            -0x8000_0000 <= a <= 0x7fff_ffff,
                    ;
                }
                let num: i64 = (n as i64) * (a as i64);
                let frac = numbers::format_rat(num, s as i64);
                let mut ans = textv;
                let isv = text::chars_of_str(" is ");
                text::append_chars(&mut ans, &isv);
                text::append_chars(&mut ans, &frac);
                let cred = text::chars_of_str(" Credits");
                text::append_chars(&mut ans, &cred);
                Ok(ans)
            },
        }
    }

    /// Route a question line by its prefix.
    pub fn handle_question(&self, line: &Vec<char>) -> (r: Result<Vec<char>, Error>)
        ensures
            ({
                let st = spec_question(self.words(), self.credits(), line@);
                match r {
                    Ok(a) => st.ok && st.answer == Some(a@),
                    Err(e) => !st.ok && e.kind() == st.kind,
                }
            }),
    {
        let much_prefix = text::chars_of_str("how much is ");
        proof {
            reveal_strlit("how much is ");
        }
        if text::contains_chars(line, &much_prefix) {
            return self.handle_how_much(line);
        }
        let many_prefix = text::chars_of_str("how many Credits is ");
        proof {
            reveal_strlit("how many Credits is ");
        }
        if text::contains_chars(line, &many_prefix) {
            return self.handle_how_many(line);
        }
        Err(Error::InvalidInput(text::string_from_chars(line)))
    }

    /// Feed one input line to the resolver: a statement mutates the
    /// mappings and returns no output; a question leaves them unchanged
    /// and returns an answer string.
    pub fn handle_input(&mut self, input: &str) -> (r: Result<Option<String>, Error>)
        ensures
            ({
                let st = spec_step(old(self).words(), old(self).credits(), input@);
                &&& final(self).words() == st.words
                &&& final(self).credits() == st.credits
                &&& (match r {
                    Ok(out) => st.ok && (match out {
                        Some(s) => st.answer == Some(s@),
                        None => st.answer is None,
                    }),
                    Err(e) => !st.ok && e.kind() == st.kind,
                })
            }),
    {
        let line = text::chars_of_str(input);
        let howp = text::chars_of_str("how");
        let qm = text::chars_of_str("?");
        proof {
            reveal_strlit("how");
            reveal_strlit("?");
        }
        if text::contains_chars(&line, &howp) || text::contains_chars(&line, &qm) {
            match self.handle_question(&line) {
                Ok(ansv) => Ok(Some(text::string_from_chars(&ansv))),
                Err(e) => Err(e),
            }
        } else {
            match self.handle_statement(&line) {
                Ok(()) => Ok(None),
                Err(e) => Err(e),
            }
        }
    }
}

} // verus!
