//! The lexer: turns the bytes of a source text into the text of a lexem
//! table, one lexem per line.
use vstd::prelude::*;
use crate::text::{buf_to_lexem, is_digit, push_char, split_on, lemma_split_append_plain, lemma_split_append_sep};

verus! {

/// A lexem of the source text.
pub enum Lexem {
    /// A maximal run of decimal digits.
    Number(Seq<char>),
    /// A maximal run of ASCII letters.
    Word(Seq<char>),
    /// A '|' or a ':'.
    Delimeter(char),
}

/// Where the lexer stopped reading.
#[derive(Debug, Clone, Copy, PartialEq, Eq, Structural)]
pub enum LexStop {
    /// The input ended.
    EndOfInput,
    /// A ';' ended the text.
    Semicolon,
    /// A byte that starts no lexem.
    Unrecognized,
}

/// What the lexer produces: the lexem table and how it stopped.
pub struct LexOutput {
    pub text: String,
    pub stop: LexStop,
}

/// The state of the lexer between two bytes: inside a number, inside a word,
/// or after a delimiter (or at the start).
pub enum States {
    Digit,
    Letter,
    Delim,
}

/// An ASCII letter.
pub open spec fn is_letter(c: char) -> bool {
    ('A' <= c && c <= 'Z') || ('a' <= c && c <= 'z')
}

/// A delimiter of the source language.
pub open spec fn is_delim(c: char) -> bool {
    c == '|' || c == ':'
}

/// A byte that continues the lexem table: a letter, a digit or a delimiter.
pub open spec fn accepted(b: u8) -> bool {
    let c = b as char;
    is_letter(c) || is_digit(c) || is_delim(c)
}

/// The number of leading bytes of `s` that the lexer turns into lexems.
pub open spec fn accepted_len(s: Seq<u8>) -> nat
    decreases s.len(),
{
    if s.len() == 0 || !accepted(s[0]) {
        0
    } else {
        1 + accepted_len(s.skip(1))
    }
}

/// The lexems of a text made of letters, digits and delimiters: maximal runs
/// of letters, maximal runs of digits, and each delimiter on its own.
pub open spec fn lexems(p: Seq<char>) -> Seq<Lexem>
    decreases p.len(),
{
    if p.len() == 0 {
        Seq::empty()
    } else {
        let t = lexems(p.drop_last());
        let c = p.last();
        if is_letter(c) {
            if t.len() > 0 && t.last() is Word {
                t.update(t.len() - 1, Lexem::Word(t.last()->Word_0.push(c)))
            } else {
                t.push(Lexem::Word(seq![c]))
            }
        } else if is_digit(c) {
            if t.len() > 0 && t.last() is Number {
                t.update(t.len() - 1, Lexem::Number(t.last()->Number_0.push(c)))
            } else {
                t.push(Lexem::Number(seq![c]))
            }
        } else {
            t.push(Lexem::Delimeter(c))
        }
    }
}

/// The line of the lexem table that stands for one lexem.
pub open spec fn lexem_line(l: Lexem) -> Seq<char> {
    match l {
        Lexem::Number(d) => "Number-"@ + d + "\n"@,
        Lexem::Word(w) => "String-"@ + w + "\n"@,
        Lexem::Delimeter(c) => "Delimeter-"@ + seq![c] + "\n"@,
    }
}

/// The lexem table: the lines of the lexems, in order.
pub open spec fn lexem_table(ls: Seq<Lexem>) -> Seq<char>
    decreases ls.len(),
{
    if ls.len() == 0 {
        Seq::empty()
    } else {
        lexem_table(ls.drop_last()) + lexem_line(ls.last())
    }
}

/// The characters that the bytes stand for (each byte read as a character).
pub open spec fn byte_chars(s: Seq<u8>) -> Seq<char> {
    s.map_values(|b: u8| b as char)
}

/// The lexem table that the lexer writes for `input`: the lexems of the
/// longest prefix made of letters, digits and delimiters.
pub open spec fn lex_text(input: Seq<u8>) -> Seq<char> {
    lexem_table(lexems(byte_chars(input.take(accepted_len(input) as int))))
}

/// How the lexer stops on `input`: at the end, at a ';', or at another byte
/// that starts no lexem.
pub open spec fn lex_stop(input: Seq<u8>) -> LexStop {
    let k = accepted_len(input);
    if k == input.len() {
        LexStop::EndOfInput
    } else if input[k as int] as char == ';' {
        LexStop::Semicolon
    } else {
        LexStop::Unrecognized
    }
}

/// Writes a pending number lexem, if there is one, and empties its buffer.
fn w_num_lexem(digit_buf: &mut Vec<char>, out: &mut String)
    ensures
        final(digit_buf)@ == Seq::<char>::empty(),
        old(digit_buf)@.len() == 0 ==> final(out)@ == old(out)@,
        old(digit_buf)@.len() != 0 ==> final(out)@ == old(out)@ + lexem_line(Lexem::Number(old(digit_buf)@)),
{
    if digit_buf.len() != 0 {
        let mut full_lexema = String::from_str("Number-");
        let body = buf_to_lexem(digit_buf);
        full_lexema.append(body.as_str());
        full_lexema.append("\n");
        digit_buf.clear();
        out.append(full_lexema.as_str());
    }
}

/// Writes a pending word lexem, if there is one, and empties its buffer.
fn w_str_lexem(letter_buf: &mut Vec<char>, out: &mut String)
    ensures
        final(letter_buf)@ == Seq::<char>::empty(),
        old(letter_buf)@.len() == 0 ==> final(out)@ == old(out)@,
        old(letter_buf)@.len() != 0 ==> final(out)@ == old(out)@ + lexem_line(Lexem::Word(old(letter_buf)@)),
{
    if letter_buf.len() != 0 {
        let mut full_lexema = String::from_str("String-");
        let body = buf_to_lexem(letter_buf);
        full_lexema.append(body.as_str());
        full_lexema.append("\n");
        letter_buf.clear();
        out.append(full_lexema.as_str());
    }
}

/// Writes a delimiter lexem.
fn w_delim_lexem(ch: &char, out: &mut String)
    ensures
        final(out)@ == old(out)@ + lexem_line(Lexem::Delimeter(*ch)),
{
    let mut full_lexema = String::from_str("Delimeter-");
    push_char(&mut full_lexema, *ch);
    full_lexema.append("\n");
    out.append(full_lexema.as_str());
    assert(final(out)@ =~= old(out)@ + lexem_line(Lexem::Delimeter(*ch)));
}

proof fn lemma_accepted_len(s: Seq<u8>, i: int)
    requires
        0 <= i <= s.len(),
        forall|j: int| 0 <= j < i ==> accepted(#[trigger] s[j]),
        i == s.len() || !accepted(s[i]),
    ensures
        accepted_len(s) == i,
    decreases i,
{
    if i > 0 {
        let t = s.skip(1);
        assert forall|j: int| 0 <= j < i - 1 implies accepted(#[trigger] t[j]) by {
            assert(t[j] == s[j + 1]);
        }
        if i < s.len() {
            assert(t[i - 1] == s[i]);
        }
        lemma_accepted_len(t, i - 1);
        assert(accepted(s[0]));
    }
}

/// What the lexer state says of the lexems read so far and of the text
/// written so far.
spec fn lexer_inv(state: States, digits: Seq<char>, letters: Seq<char>, out: Seq<char>, t: Seq<Lexem>) -> bool {
    match state {
        States::Delim => {
            &&& digits.len() == 0
            &&& letters.len() == 0
            &&& out == lexem_table(t)
            &&& (t.len() == 0 || t.last() is Delimeter)
        },
        States::Letter => {
            &&& digits.len() == 0
            &&& letters.len() > 0
            &&& t.len() > 0
            &&& t.last() == Lexem::Word(letters)
            &&& out == lexem_table(t.drop_last())
        },
        States::Digit => {
            &&& letters.len() == 0
            &&& digits.len() > 0
            &&& t.len() > 0
            &&& t.last() == Lexem::Number(digits)
            &&& out == lexem_table(t.drop_last())
        },
    }
}

/// An ASCII letter (`char::is_ascii_alphabetic`).
fn is_ascii_letter(c: char) -> (r: bool)
    ensures
        r == is_letter(c),
{
    ('A' <= c && c <= 'Z') || ('a' <= c && c <= 'z')
}

/// Runs the lexer over `input`: reads it byte by byte, writes a line for each
/// lexem, and stops at the end of the input, at a ';', or at the first byte
/// that starts no lexem. The lexem in progress is written in each case.
pub fn lexerize(input: &[u8]) -> (r: LexOutput)
    ensures
        r.text@ == lex_text(input@),
        r.stop == lex_stop(input@),
{
    let mut out = String::new();
    let mut cur_state = States::Delim;
    let mut digit_buf: Vec<char> = Vec::new();
    let mut letter_buf: Vec<char> = Vec::new();
    let mut i: usize = 0;
    let ghost mut t: Seq<Lexem> = Seq::empty();
    assert(byte_chars(input@.take(0)) =~= Seq::<char>::empty());
    loop
        invariant
            i <= input@.len(),
            forall|j: int| 0 <= j < i ==> accepted(#[trigger] input@[j]),
            t == lexems(byte_chars(input@.take(i as int))),
            lexer_inv(cur_state, digit_buf@, letter_buf@, out@, t),
        decreases input@.len() - i,
    {
        if i == input.len() {
            proof {
                lemma_accepted_len(input@, i as int);
            }
            w_num_lexem(&mut digit_buf, &mut out);
            w_str_lexem(&mut letter_buf, &mut out);
            assert(out@ == lexem_table(t));
            return LexOutput { text: out, stop: LexStop::EndOfInput };
        }
        let b = input[i];
        let ch = b as char;
        let ghost p = byte_chars(input@.take(i + 1));
        assert(p.drop_last() =~= byte_chars(input@.take(i as int)));
        assert(p.last() == ch);
        if ch == ';' {
            proof {
                lemma_accepted_len(input@, i as int);
            }
            if digit_buf.len() != 0 {
                w_num_lexem(&mut digit_buf, &mut out);
            }
            if letter_buf.len() != 0 {
                w_str_lexem(&mut letter_buf, &mut out);
            }
            assert(out@ == lexem_table(t));
            return LexOutput { text: out, stop: LexStop::Semicolon };
        } else if ch == '|' || ch == ':' {
            match cur_state {
                States::Digit => {
                    w_num_lexem(&mut digit_buf, &mut out);
                    cur_state = States::Delim;
                    w_delim_lexem(&ch, &mut out);
                },
                States::Letter => {
                    w_str_lexem(&mut letter_buf, &mut out);
                    cur_state = States::Delim;
                    w_delim_lexem(&ch, &mut out);
                },
                States::Delim => {
                    cur_state = States::Delim;
                    w_delim_lexem(&ch, &mut out);
                },
            }
            proof {
                let t0 = t;
                reveal_with_fuel(lexem_table, 2);
                t = t.push(Lexem::Delimeter(ch));
                assert(t.drop_last() =~= t0);
            }
        } else if is_ascii_letter(ch) {
            match cur_state {
                States::Digit => {
                    w_num_lexem(&mut digit_buf, &mut out);
                    cur_state = States::Letter;
                    letter_buf.push(ch);
                    proof {
                        let t0 = t;
                        reveal_with_fuel(lexem_table, 2);
                        t = t.push(Lexem::Word(seq![ch]));
                        assert(letter_buf@ =~= seq![ch]);
                        assert(t.drop_last() =~= t0);
                    }
                },
                States::Letter => {
                    cur_state = States::Letter;
                    letter_buf.push(ch);
                    proof {
                        let t0 = t;
                        reveal_with_fuel(lexem_table, 2);
                        t = t.update(t.len() - 1, Lexem::Word(t.last()->Word_0.push(ch)));
                        assert(t.drop_last() =~= t0.drop_last());
                    }
                },
                States::Delim => {
                    cur_state = States::Letter;
                    letter_buf.push(ch);
                    proof {
                        let t0 = t;
                        reveal_with_fuel(lexem_table, 2);
                        t = t.push(Lexem::Word(seq![ch]));
                        assert(letter_buf@ =~= seq![ch]);
                        assert(t.drop_last() =~= t0);
                    }
                },
            }
        } else if '0' <= ch && ch <= '9' {
            match cur_state {
                States::Letter => {
                    w_str_lexem(&mut letter_buf, &mut out);
                    cur_state = States::Digit;
                    digit_buf.push(ch);
                    proof {
                        let t0 = t;
                        reveal_with_fuel(lexem_table, 2);
                        t = t.push(Lexem::Number(seq![ch]));
                        assert(digit_buf@ =~= seq![ch]);
                        assert(t.drop_last() =~= t0);
                    }
                },
                States::Digit => {
                    cur_state = States::Digit;
                    digit_buf.push(ch);
                    proof {
                        let t0 = t;
                        reveal_with_fuel(lexem_table, 2);
                        t = t.update(t.len() - 1, Lexem::Number(t.last()->Number_0.push(ch)));
                        assert(t.drop_last() =~= t0.drop_last());
                    }
                },
                States::Delim => {
                    cur_state = States::Digit;
                    digit_buf.push(ch);
                    proof {
                        let t0 = t;
                        reveal_with_fuel(lexem_table, 2);
                        t = t.push(Lexem::Number(seq![ch]));
                        assert(digit_buf@ =~= seq![ch]);
                        assert(t.drop_last() =~= t0);
                    }
                },
            }
        } else {
            proof {
                lemma_accepted_len(input@, i as int);
            }
            w_num_lexem(&mut digit_buf, &mut out);
            w_str_lexem(&mut letter_buf, &mut out);
            assert(out@ == lexem_table(t));
            return LexOutput { text: out, stop: LexStop::Unrecognized };
        }
        assert(lexems(p) == t);
        i = i + 1;
    }
}

/// The text of a lexem: its digits, its letters, or its delimiter.
pub open spec fn lexem_value(l: Lexem) -> Seq<char> {
    match l {
        Lexem::Number(d) => d,
        Lexem::Word(w) => w,
        Lexem::Delimeter(c) => seq![c],
    }
}

/// The kind that the lexem table writes before a lexem.
pub open spec fn lexem_kind(l: Lexem) -> Seq<char> {
    match l {
        Lexem::Number(_) => "Number"@,
        Lexem::Word(_) => "String"@,
        Lexem::Delimeter(_) => "Delimeter"@,
    }
}

/// The texts of the lexems, one after another.
pub open spec fn lexem_values(ls: Seq<Lexem>) -> Seq<char>
    decreases ls.len(),
{
    if ls.len() == 0 {
        Seq::empty()
    } else {
        lexem_values(ls.drop_last()) + lexem_value(ls.last())
    }
}

/// What a lexem is made of: a number of one or more digits, a word of one or
/// more letters, or a character that is neither.
pub open spec fn lexem_well_formed(l: Lexem) -> bool {
    match l {
        Lexem::Number(d) => d.len() > 0 && forall|i: int| 0 <= i < d.len() ==> is_digit(#[trigger] d[i]),
        Lexem::Word(w) => w.len() > 0 && forall|i: int| 0 <= i < w.len() ==> is_letter(#[trigger] w[i]),
        Lexem::Delimeter(c) => !is_letter(c) && !is_digit(c),
    }
}

/// The lexems of a text give the text back, one after another; each is a
/// number, a word or a single other character; and runs are maximal: no two
/// neighbouring lexems are both numbers or both words.
/// The lexem that a character makes on its own.
pub open spec fn single_lexem(c: char) -> Lexem {
    if is_letter(c) {
        Lexem::Word(seq![c])
    } else if is_digit(c) {
        Lexem::Number(seq![c])
    } else {
        Lexem::Delimeter(c)
    }
}

/// One more character: it extends the last lexem if that lexem is a run of
/// the same class, else it makes a lexem of its own.
pub proof fn lemma_lexems_push(q: Seq<char>, c: char)
    ensures
        lexems(q.push(c)) == (if is_letter(c) && lexems(q).len() > 0 && lexems(q).last() is Word {
            lexems(q).update(lexems(q).len() - 1, Lexem::Word(lexems(q).last()->Word_0.push(c)))
        } else if is_digit(c) && !is_letter(c) && lexems(q).len() > 0 && lexems(q).last() is Number {
            lexems(q).update(lexems(q).len() - 1, Lexem::Number(lexems(q).last()->Number_0.push(c)))
        } else if is_letter(c) {
            lexems(q).push(Lexem::Word(seq![c]))
        } else if is_digit(c) {
            lexems(q).push(Lexem::Number(seq![c]))
        } else {
            lexems(q).push(Lexem::Delimeter(c))
        }),
{
    assert(q.push(c).drop_last() =~= q);
    assert(q.push(c).last() == c);
}

/// The lexems of a text give the text back, one after another; each is a
/// number, a word or a single other character; and runs are maximal: no two
/// neighbouring lexems are both numbers or both words.
pub proof fn law_lexems_cover_text(p: Seq<char>)
    ensures
        lexem_values(lexems(p)) == p,
        forall|i: int| 0 <= i < lexems(p).len() ==> lexem_well_formed(#[trigger] lexems(p)[i]),
        forall|i: int| 0 <= i < lexems(p).len() - 1 ==>
            !(lexems(p)[i] is Word && #[trigger] lexems(p)[i + 1] is Word)
            && !(lexems(p)[i] is Number && lexems(p)[i + 1] is Number),
    decreases p.len(),
{
    if p.len() == 0 {
        assert(lexem_values(Seq::<Lexem>::empty()) =~= p);
    } else {
        let q = p.drop_last();
        let c = p.last();
        assert(q.push(c) =~= p);
        law_lexems_cover_text(q);
        lemma_lexems_push(q, c);
        let t = lexems(q);
        let u = lexems(q.push(c));
        if (is_letter(c) && t.len() > 0 && t.last() is Word) || (is_digit(c) && !is_letter(c) && t.len() > 0 && t.last() is Number) {
            assert(u.drop_last() =~= t.drop_last());
            assert(lexem_values(t) == lexem_values(t.drop_last()) + lexem_value(t.last()));
            assert(lexem_value(u.last()) =~= lexem_value(t.last()).push(c));
            assert(lexem_values(u) =~= p);
            assert forall|i: int| 0 <= i < u.len() implies lexem_well_formed(#[trigger] u[i]) by {
                if i < u.len() - 1 {
                    assert(u[i] == t[i]);
                } else {
                    assert(lexem_well_formed(t[i]));
                }
            }
            assert forall|i: int| 0 <= i < u.len() - 1 implies
                !(u[i] is Word && #[trigger] u[i + 1] is Word) && !(u[i] is Number && u[i + 1] is Number) by {
                assert(u[i] == t[i]);
                if i + 1 < u.len() - 1 {
                    assert(u[i + 1] == t[i + 1]);
                }
            }
        } else {
            let x = single_lexem(c);
            if is_letter(c) {
                assert(u == t.push(Lexem::Word(seq![c])));
                assert(x == Lexem::Word(seq![c]));
            } else if is_digit(c) {
                assert(u == t.push(Lexem::Number(seq![c])));
                assert(x == Lexem::Number(seq![c]));
            } else {
                lemma_lexems_push_delim(q, c);
                assert(x == Lexem::Delimeter(c));
            }
            assert(u == t.push(x));
            assert(u.drop_last() =~= t);
            assert(lexem_values(u) == lexem_values(t) + lexem_value(x));
            assert(lexem_value(x) =~= seq![c]);
            assert(lexem_values(u) =~= p);
            assert forall|i: int| 0 <= i < u.len() implies lexem_well_formed(#[trigger] u[i]) by {
                if i < u.len() - 1 {
                    assert(u[i] == t[i]);
                }
            }
            assert forall|i: int| 0 <= i < u.len() - 1 implies
                !(u[i] is Word && #[trigger] u[i + 1] is Word) && !(u[i] is Number && u[i + 1] is Number) by {
                assert(u[i] == t[i]);
                if i + 1 < u.len() - 1 {
                    assert(u[i + 1] == t[i + 1]);
                }
            }
        }
    }
}

proof fn lemma_lexems_push_delim(q: Seq<char>, c: char)
    requires
        !is_letter(c),
        !is_digit(c),
    ensures
        lexems(q.push(c)) == lexems(q).push(Lexem::Delimeter(c)),
{
    lemma_lexems_push(q, c);
}

/// A character that the lexem table can hold: a letter, a digit or a delimiter.
pub open spec fn table_char(c: char) -> bool {
    is_letter(c) || is_digit(c) || is_delim(c)
}

/// The line of the lexem table for a lexem, without its '\n': the kind, '-'
/// and the value.
pub open spec fn lexem_entry(l: Lexem) -> Seq<char> {
    lexem_kind(l) + "-"@ + lexem_value(l)
}

/// The lines of the lexem table for a sequence of lexems.
pub open spec fn lexem_entries(ls: Seq<Lexem>) -> Seq<Seq<char>> {
    Seq::new(ls.len(), |i: int| lexem_entry(ls[i]))
}

proof fn lemma_lexem_chars(p: Seq<char>)
    requires
        forall|i: int| 0 <= i < p.len() ==> table_char(#[trigger] p[i]),
    ensures
        forall|i: int, j: int| 0 <= i < lexems(p).len() && 0 <= j < lexem_value(lexems(p)[i]).len()
            ==> table_char(#[trigger] lexem_value(lexems(p)[i])[j]),
    decreases p.len(),
{
    if p.len() > 0 {
        let q = p.drop_last();
        let c = p.last();
        assert(q.push(c) =~= p);
        assert(table_char(p[p.len() - 1]));
        lemma_lexem_chars(q);
        lemma_lexems_push(q, c);
        let t = lexems(q);
        let u = lexems(q.push(c));
        assert forall|i: int, j: int| 0 <= i < u.len() && 0 <= j < lexem_value(u[i]).len()
            implies table_char(#[trigger] lexem_value(u[i])[j]) by {
            if i < t.len() && (i < t.len() - 1 || u[i] == t[i]) {
                assert(u[i] == t[i]);
            } else if i < t.len() {
                let v = lexem_value(t[i]);
                assert(lexem_value(u[i]) =~= v.push(c));
                if j < v.len() {
                    assert(lexem_value(u[i])[j] == v[j]);
                }
            } else {
                if is_letter(c) {
                } else if is_digit(c) {
                } else {
                    lemma_lexems_push_delim(q, c);
                }
                assert(lexem_value(u[i]) =~= seq![c]);
            }
        }
    }
}

proof fn lemma_accepted_prefix(s: Seq<u8>)
    ensures
        accepted_len(s) <= s.len(),
        forall|j: int| 0 <= j < accepted_len(s) ==> accepted(#[trigger] s[j]),
    decreases s.len(),
{
    if s.len() > 0 && accepted(s[0]) {
        lemma_accepted_prefix(s.skip(1));
        assert forall|j: int| 0 <= j < accepted_len(s) implies accepted(#[trigger] s[j]) by {
            if j > 0 {
                assert(s[j] == s.skip(1)[j - 1]);
            }
        }
    }
}

proof fn lemma_lexem_line(l: Lexem)
    ensures
        lexem_line(l) == lexem_entry(l) + "\n"@,
{
    reveal_strlit("Number-");
    reveal_strlit("String-");
    reveal_strlit("Delimeter-");
    reveal_strlit("Number");
    reveal_strlit("String");
    reveal_strlit("Delimeter");
    reveal_strlit("-");
    assert(lexem_line(l) =~= lexem_entry(l) + "\n"@);
}

proof fn lemma_entry_fields(l: Lexem)
    requires
        forall|j: int| 0 <= j < lexem_value(l).len() ==> table_char(#[trigger] lexem_value(l)[j]),
    ensures
        split_on(lexem_entry(l), '-') == seq![lexem_kind(l), lexem_value(l)],
        forall|j: int| 0 <= j < lexem_entry(l).len() ==> #[trigger] lexem_entry(l)[j] != '\n',
{
    reveal_strlit("Number");
    reveal_strlit("String");
    reveal_strlit("Delimeter");
    reveal_strlit("-");
    let k = lexem_kind(l);
    let v = lexem_value(l);
    assert(forall|j: int| 0 <= j < k.len() ==> #[trigger] k[j] != '-' && k[j] != '\n');
    assert(forall|j: int| 0 <= j < v.len() ==> #[trigger] v[j] != '-' && v[j] != '\n') by {
        assert forall|j: int| 0 <= j < v.len() implies #[trigger] v[j] != '-' && v[j] != '\n' by {
            assert(table_char(v[j]));
        }
    }
    let e = Seq::<char>::empty();
    lemma_split_append_plain(e, k, '-');
    assert(e + k =~= k);
    assert(split_on(e, '-') =~= seq![e]);
    assert(seq![e].update(0, e + k) =~= seq![k]);
    lemma_split_append_sep(k, '-');
    lemma_split_append_plain(k.push('-'), v, '-');
    assert(seq![k].push(e).update(1, e + v) =~= seq![k, v]);
    assert(lexem_entry(l) =~= k.push('-') + v);
}

proof fn lemma_table_lines(ls: Seq<Lexem>)
    requires
        forall|i: int, j: int| 0 <= i < ls.len() && 0 <= j < lexem_value(ls[i]).len()
            ==> table_char(#[trigger] lexem_value(ls[i])[j]),
    ensures
        split_on(lexem_table(ls), '\n') == lexem_entries(ls).push(Seq::<char>::empty()),
    decreases ls.len(),
{
    if ls.len() == 0 {
        assert(lexem_entries(ls).push(Seq::<char>::empty()) =~= seq![Seq::<char>::empty()]);
    } else {
        let rest = ls.drop_last();
        let l = ls.last();
        assert forall|i: int, j: int| 0 <= i < rest.len() && 0 <= j < lexem_value(rest[i]).len()
            implies table_char(#[trigger] lexem_value(rest[i])[j]) by {
            assert(rest[i] == ls[i]);
        }
        lemma_table_lines(rest);
        assert forall|j: int| 0 <= j < lexem_value(l).len() implies table_char(#[trigger] lexem_value(l)[j]) by {
            assert(l == ls[ls.len() - 1]);
        }
        lemma_entry_fields(l);
        lemma_lexem_line(l);
        reveal_strlit("\n");
        let x = lexem_table(rest);
        let e = lexem_entry(l);
        assert(lexem_table(ls) =~= (x + e).push('\n'));
        lemma_split_append_plain(x, e, '\n');
        lemma_split_append_sep(x + e, '\n');
        let p = lexem_entries(rest).push(Seq::<char>::empty());
        assert(p.update(p.len() - 1, p.last() + e) =~= lexem_entries(ls));
    }
}

/// What the lexer writes is what the parser reads: split at '\n', the lexem
/// table is one line per lexem followed by one empty line, and each lexem's
/// line splits at '-' into exactly two fields, its kind and its value.
pub proof fn law_table_lines(input: Seq<u8>)
    ensures
        ({
            let ls = lexems(byte_chars(input.take(accepted_len(input) as int)));
            &&& split_on(lex_text(input), '\n') == lexem_entries(ls).push(Seq::<char>::empty())
            &&& forall|i: int| 0 <= i < ls.len() ==>
                split_on(#[trigger] lexem_entry(ls[i]), '-') == seq![lexem_kind(ls[i]), lexem_value(ls[i])]
        }),
{
    lemma_accepted_prefix(input);
    let p = byte_chars(input.take(accepted_len(input) as int));
    assert forall|i: int| 0 <= i < p.len() implies table_char(#[trigger] p[i]) by {
        assert(accepted(input[i]));
    }
    lemma_lexem_chars(p);
    let ls = lexems(p);
    lemma_table_lines(ls);
    assert forall|i: int| 0 <= i < ls.len() implies
        split_on(#[trigger] lexem_entry(ls[i]), '-') == seq![lexem_kind(ls[i]), lexem_value(ls[i])] by {
        lemma_entry_fields(ls[i]);
    }
}

} // verus!
