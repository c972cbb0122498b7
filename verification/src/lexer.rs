//! The tokenizer: from a sequence of characters to a sequence of normalized
//! terms.
//!
//! A term is one of three things: a maximal run of decimal digits, kept as it
//! is; a letter followed by a maximal run of letters and digits, with every
//! ASCII lower-case letter replaced by its upper-case form; or any single
//! other character that is not whitespace. Whitespace separates terms and is
//! dropped.

use vstd::prelude::*;

verus! {

/// Whether `c`, a character beyond ASCII, has the Unicode property
/// `Alphabetic`, as `char::is_alphabetic` decides it.
pub uninterp spec fn unicode_alphabetic(c: char) -> bool;

/// Whether `c`, a character beyond ASCII, is a Unicode letter or number, as
/// `char::is_alphanumeric` decides it.
pub uninterp spec fn unicode_alphanumeric(c: char) -> bool;

/// The characters with the Unicode property `White_Space`.
pub open spec fn white_space(c: char) -> bool {
    ||| '\u{9}' <= c <= '\u{d}'
    ||| c == ' '
    ||| c == '\u{85}'
    ||| c == '\u{a0}'
    ||| c == '\u{1680}'
    ||| '\u{2000}' <= c <= '\u{200a}'
    ||| c == '\u{2028}'
    ||| c == '\u{2029}'
    ||| c == '\u{202f}'
    ||| c == '\u{205f}'
    ||| c == '\u{3000}'
}

/// The letters of ASCII.
pub open spec fn ascii_letter(c: char) -> bool {
    'a' <= c <= 'z' || 'A' <= c <= 'Z'
}

/// The letters: within ASCII `a` to `z` and `A` to `Z`, beyond it the
/// characters with the Unicode property `Alphabetic`.
pub open spec fn alphabetic(c: char) -> bool {
    if c <= '\u{7f}' {
        ascii_letter(c)
    } else {
        unicode_alphabetic(c)
    }
}

/// The letters and numbers: within ASCII the letters and the decimal digits,
/// beyond it the Unicode letters and numbers.
pub open spec fn alphanumeric(c: char) -> bool {
    if c <= '\u{7f}' {
        ascii_letter(c) || decimal_digit(c)
    } else {
        unicode_alphanumeric(c)
    }
}

/// `char::is_whitespace` tells whether the character has the Unicode property
/// `White_Space`: the tab, the line and page breaks, the spaces.
pub assume_specification[ char::is_whitespace ](c: char) -> (r: bool)
    ensures
        r == white_space(c),
;

/// `char::is_alphabetic` is true of the letters of ASCII and of no other
/// character of ASCII; beyond ASCII it is a fixed table lookup, so that its
/// answer depends on the character alone.
pub assume_specification[ char::is_alphabetic ](c: char) -> (r: bool)
    ensures
        r == alphabetic(c),
        c > '\u{7f}' ==> r == unicode_alphabetic(c),
;

/// `char::is_alphanumeric` is true of the letters and decimal digits of ASCII
/// and of no other character of ASCII; beyond ASCII it is a fixed table
/// lookup, so that its answer depends on the character alone.
pub assume_specification[ char::is_alphanumeric ](c: char) -> (r: bool)
    ensures
        r == alphanumeric(c),
        c > '\u{7f}' ==> r == unicode_alphanumeric(c),
;

/// `char::to_ascii_uppercase` maps `'a'..='z'` to `'A'..='Z'` and leaves every
/// other character as it is.
pub assume_specification[ char::to_ascii_uppercase ](c: &char) -> (r: char)
    ensures
        r == ascii_upper(*c),
;

/// `String::push` appends one character.
pub assume_specification[ String::push ](s: &mut String, c: char)
    ensures
        final(s)@ == old(s)@.push(c),
;

/// The decimal digits `'0'` to `'9'`.
pub open spec fn decimal_digit(c: char) -> bool {
    '0' <= c && c <= '9'
}

/// The upper-case form of an ASCII lower-case letter; any other character
/// unchanged.
pub open spec fn ascii_upper(c: char) -> char {
    if 'a' <= c && c <= 'z' {
        ((c as u32) - 32) as char
    } else {
        c
    }
}

/// The kinds of character that a scan tells apart.
#[derive(Clone, Copy, Debug)]
pub enum CharClass {
    /// Unicode whitespace.
    Space,
    /// A decimal digit.
    Digit,
    /// A Unicode letter or number.
    Alphanumeric,
}

/// Whether `c` belongs to `class`.
pub open spec fn in_class(c: char, class: CharClass) -> bool {
    match class {
        CharClass::Space => white_space(c),
        CharClass::Digit => decimal_digit(c),
        CharClass::Alphanumeric => alphanumeric(c),
    }
}

/// The end of the longest run of characters of `class` that starts at `from`:
/// the first position at or after `from` that holds another character, or the
/// length of `s`.
pub open spec fn run_end(s: Seq<char>, from: int, class: CharClass) -> int
    decreases s.len() - from,
{
    if 0 <= from < s.len() && in_class(s[from], class) {
        run_end(s, from + 1, class)
    } else {
        from
    }
}

/// The end of the term that starts at `start`, a position that holds a
/// character other than whitespace.
pub open spec fn term_end(s: Seq<char>, start: int) -> int {
    if decimal_digit(s[start]) {
        run_end(s, start + 1, CharClass::Digit)
    } else if alphabetic(s[start]) {
        run_end(s, start + 1, CharClass::Alphanumeric)
    } else {
        start + 1
    }
}

/// The term that the characters of `s` from `start` up to `end` give: in upper
/// case where the first of them is a letter, else unchanged.
pub open spec fn term_text(s: Seq<char>, start: int, end: int) -> Seq<char> {
    let raw = s.subrange(start, end);
    if alphabetic(s[start]) {
        raw.map_values(|c: char| ascii_upper(c))
    } else {
        raw
    }
}

/// The terms of `s` from position `from` on, in the order in which they stand.
pub open spec fn terms_from(s: Seq<char>, from: int) -> Seq<Seq<char>>
    decreases s.len() - from,
{
    let start = run_end(s, from, CharClass::Space);
    if 0 <= from <= start < s.len() {
        let end = term_end(s, start);
        if start < end <= s.len() {
            seq![term_text(s, start, end)] + terms_from(s, end)
        } else {
            seq![]
        }
    } else {
        seq![]
    }
}

/// The terms of the whole of `s`.
pub open spec fn terms_of(s: Seq<char>) -> Seq<Seq<char>> {
    terms_from(s, 0)
}

/// A run ends at or after its start, within the text, on a character that is
/// not of the class; all before it are.
pub proof fn lemma_run_end(s: Seq<char>, from: int, class: CharClass)
    requires
        0 <= from <= s.len(),
    ensures
        from <= run_end(s, from, class) <= s.len(),
        run_end(s, from, class) < s.len() ==> !in_class(s[run_end(s, from, class)], class),
        forall|i: int| from <= i < run_end(s, from, class) ==> in_class(#[trigger] s[i], class),
    decreases s.len() - from,
{
    if from < s.len() && in_class(s[from], class) {
        lemma_run_end(s, from + 1, class);
    }
}

/// A run that starts inside a run of the same class ends where that one ends.
pub proof fn lemma_run_end_within(s: Seq<char>, from: int, mid: int, class: CharClass)
    requires
        0 <= from <= mid <= s.len(),
        forall|i: int| from <= i < mid ==> in_class(#[trigger] s[i], class),
    ensures
        run_end(s, from, class) == run_end(s, mid, class),
    decreases mid - from,
{
    if from < mid {
        assert(in_class(s[from], class));
        lemma_run_end_within(s, from + 1, mid, class);
    }
}

/// A term is never empty and never reaches past the text.
pub proof fn lemma_term_end(s: Seq<char>, start: int)
    requires
        0 <= start < s.len(),
    ensures
        start < term_end(s, start) <= s.len(),
{
    lemma_run_end(s, start + 1, CharClass::Digit);
    lemma_run_end(s, start + 1, CharClass::Alphanumeric);
}

/// No term is empty.
pub proof fn lemma_terms_nonempty(s: Seq<char>, from: int)
    requires
        0 <= from <= s.len(),
    ensures
        forall|i: int| 0 <= i < terms_from(s, from).len() ==> (#[trigger] terms_from(s, from)[i]).len() > 0,
    decreases s.len() - from,
{
    let start = run_end(s, from, CharClass::Space);
    lemma_run_end(s, from, CharClass::Space);
    if start < s.len() {
        let end = term_end(s, start);
        lemma_term_end(s, start);
        lemma_terms_nonempty(s, end);
        let first = term_text(s, start, end);
        assert(first.len() == end - start);
        assert forall|i: int| 0 <= i < terms_from(s, from).len() implies (#[trigger] terms_from(
            s,
            from,
        )[i]).len() > 0 by {
            if i > 0 {
                assert(terms_from(s, from)[i] == terms_from(s, end)[i - 1]);
            }
        }
    }
}

/// The terms of a text depend on the text alone: two lexers over equal texts
/// at equal positions have the same terms yet to yield.
pub proof fn lemma_lexers_agree(a: Lexer, b: Lexer)
    requires
        a.text() == b.text(),
        a.position() == b.position(),
    ensures
        a.pending() == b.pending(),
{
}

/// Any two runs of the tokenizer over equal texts give the same terms.
pub proof fn lemma_tokenize_deterministic(
    first_text: Seq<char>,
    second_text: Seq<char>,
    first: Vec<String>,
    second: Vec<String>,
)
    requires
        first_text == second_text,
        first.deep_view() == terms_of(first_text),
        second.deep_view() == terms_of(second_text),
    ensures
        first.deep_view() == second.deep_view(),
{
}

fn is_decimal_digit(c: char) -> (r: bool)
    ensures
        r == decimal_digit(c),
{
    '0' <= c && c <= '9'
}

fn has_class(c: char, class: CharClass) -> (r: bool)
    ensures
        r == in_class(c, class),
{
    match class {
        CharClass::Space => c.is_whitespace(),
        CharClass::Digit => is_decimal_digit(c),
        CharClass::Alphanumeric => c.is_alphanumeric(),
    }
}

/// A cursor over a text that hands out its terms one by one.
///
/// Its only state is the text and the position reached: two lexers over equal
/// texts at equal positions yield the same terms.
pub struct Lexer<'a> {
    content: &'a [char],
    pos: usize,
}

impl<'a> Lexer<'a> {
    /// The text that the lexer reads.
    pub closed spec fn text(&self) -> Seq<char> {
        self.content@
    }

    /// The position of the first character not yet read.
    pub closed spec fn position(&self) -> int {
        self.pos as int
    }

    /// The position never lies past the end of the text.
    #[verifier::type_invariant]
    pub closed spec fn inv(&self) -> bool {
        self.pos <= self.content@.len()
    }

    /// The terms that the lexer has yet to yield.
    pub open spec fn pending(&self) -> Seq<Seq<char>> {
        terms_from(self.text(), self.position())
    }

    /// A lexer at the start of `content`.
    pub fn new(content: &'a [char]) -> (lexer: Self)
        ensures
            lexer.text() == content@,
            lexer.position() == 0,
            lexer.pending() == terms_of(content@),
    {
        Lexer { content, pos: 0 }
    }

    fn scan(&self, from: usize, class: CharClass) -> (end: usize)
        requires
            from <= self.text().len(),
        ensures
            end == run_end(self.text(), from as int, class),
            from <= end <= self.text().len(),
    {
        let mut end: usize = from;
        while end < self.content.len() && has_class(self.content[end], class)
            invariant
                from <= end <= self.content@.len(),
                forall|i: int| from <= i < end ==> in_class(#[trigger] self.content@[i], class),
            decreases self.content@.len() - end,
        {
            end += 1;
        }
        proof {
            lemma_run_end_within(self.content@, from as int, end as int, class);
        }
        end
    }

    /// Reads the next term, or returns `None` at the end of the text.
    pub fn next_token(&mut self) -> (token: Option<String>)
        ensures
            final(self).text() == old(self).text(),
            old(self).position() <= final(self).position() <= old(self).text().len(),
            match token {
                Some(term) => {
                    &&& old(self).pending().len() > 0
                    &&& term@ == old(self).pending()[0]
                    &&& term@.len() > 0
                    &&& final(self).pending() == old(self).pending().drop_first()
                },
                None => {
                    &&& old(self).pending().len() == 0
                    &&& final(self).pending().len() == 0
                },
            },
    {
        proof {
            use_type_invariant(&*self);
        }
        let ghost s = self.content@;
        let start = self.scan(self.pos, CharClass::Space);
        if start >= self.content.len() {
            self.pos = start;
            return None;
        }
        let first = self.content[start];
        let upper = first.is_alphabetic();
        let end = if is_decimal_digit(first) {
            self.scan(start + 1, CharClass::Digit)
        } else if upper {
            self.scan(start + 1, CharClass::Alphanumeric)
        } else {
            start + 1
        };
        proof {
            lemma_term_end(s, start as int);
        }
        let mut term = String::new();
        let mut i: usize = start;
        while i < end
            invariant
                start <= i <= end <= self.content@.len(),
                self.content@ == s,
                term@.len() == i - start,
                forall|k: int|
                    0 <= k < term@.len() ==> #[trigger] term@[k] == if upper {
                        ascii_upper(s[start + k])
                    } else {
                        s[start + k]
                    },
            decreases end - i,
        {
            let c = self.content[i];
            if upper {
                term.push(c.to_ascii_uppercase());
            } else {
                term.push(c);
            }
            i += 1;
        }
        proof {
            assert(term@ =~= term_text(s, start as int, end as int));
            assert(seq![term@] + terms_from(s, end as int) == old(self).pending());
            assert((seq![term@] + terms_from(s, end as int)).drop_first() =~= terms_from(
                s,
                end as int,
            ));
        }
        self.pos = end;
        Some(term)
    }
}

/// Splits `content` into its terms.
pub fn tokenize(content: &[char]) -> (terms: Vec<String>)
    ensures
        terms.deep_view() == terms_of(content@),
{
    let mut lexer = Lexer::new(content);
    let mut terms: Vec<String> = Vec::new();
    loop
        invariant
            lexer.text() == content@,
            terms.deep_view() + lexer.pending() == terms_of(content@),
        ensures
            terms.deep_view() == terms_of(content@),
        decreases content@.len() - lexer.position(), lexer.pending().len(),
    {
        match lexer.next_token() {
            Some(term) => {
                terms.push(term);
            },
            None => {
                break ;
            },
        }
    }
    terms
}

} // verus!
