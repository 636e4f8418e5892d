use vstd::prelude::*;

use crate::models::{
    cards_view, Card, CardErrorInsight, CardInDeck, CardInDeckModel, CardModel, ErrorModel,
};

verus! {

/// Unicode white space, as `char::is_whitespace` and `str::split_whitespace` see it.
pub open spec fn is_ws(c: char) -> bool {
    let u = c as u32;
    (0x9 <= u <= 0xd) || u == 0x20 || u == 0x85 || u == 0xa0 || u == 0x1680 || (0x2000 <= u
        <= 0x200a) || u == 0x2028 || u == 0x2029 || u == 0x202f || u == 0x205f || u == 0x3000
}

pub fn is_whitespace(c: char) -> (r: bool)
    ensures
        r == is_ws(c),
{
    let u = c as u32;
    (0x9 <= u && u <= 0xd) || u == 0x20 || u == 0x85 || u == 0xa0 || u == 0x1680 || (0x2000 <= u
        && u <= 0x200a) || u == 0x2028 || u == 0x2029 || u == 0x202f || u == 0x205f || u == 0x3000
}

/// The text cut at each line feed.
pub open spec fn lines_of(s: Seq<char>) -> Seq<Seq<char>>
    decreases s.len(),
{
    if s.len() == 0 {
        seq![Seq::empty()]
    } else {
        let prev = lines_of(s.drop_last());
        if s.last() == '\n' {
            prev.push(Seq::empty())
        } else {
            prev.update(prev.len() - 1, prev.last().push(s.last()))
        }
    }
}

/// The maximal runs of non-white-space characters, in order.
pub open spec fn tokens_of(s: Seq<char>) -> Seq<Seq<char>>
    decreases s.len(),
{
    if s.len() == 0 {
        seq![]
    } else {
        let prev = tokens_of(s.drop_last());
        let c = s.last();
        if is_ws(c) {
            prev
        } else if s.len() >= 2 && !is_ws(s[s.len() - 2]) {
            prev.update(prev.len() - 1, prev.last().push(c))
        } else {
            prev.push(seq![c])
        }
    }
}

/// A line that holds nothing but white space.
pub open spec fn is_blank(line: Seq<char>) -> bool {
    forall|i: int| 0 <= i < line.len() ==> is_ws(#[trigger] line[i])
}

pub open spec fn is_digit(c: char) -> bool {
    0x30 <= c as u32 <= 0x39
}

pub open spec fn digits_value(d: Seq<char>) -> int
    decreases d.len(),
{
    if d.len() == 0 {
        0
    } else {
        digits_value(d.drop_last()) * 10 + (d.last() as u32 - 0x30)
    }
}

/// The token without its leading `+`, if it has one.
pub open spec fn unsigned_part(tok: Seq<char>) -> Seq<char> {
    if tok.len() > 0 && tok[0] == '+' {
        tok.drop_first()
    } else {
        tok
    }
}

pub open spec fn all_digits(d: Seq<char>) -> bool {
    forall|i: int| 0 <= i < d.len() ==> is_digit(#[trigger] d[i])
}

/// The count that a leading token gives: a decimal number with an optional `+`, from 1
/// to `i32::MAX`. Anything else, zero and negative numbers included, gives 0.
pub open spec fn quantity_of(tok: Seq<char>) -> int {
    let d = unsigned_part(tok);
    if d.len() > 0 && all_digits(d) && 0 < digits_value(d) <= i32::MAX {
        digits_value(d)
    } else {
        0
    }
}

/// The tokens joined with single spaces.
pub open spec fn join(toks: Seq<Seq<char>>) -> Seq<char>
    decreases toks.len(),
{
    if toks.len() == 0 {
        Seq::empty()
    } else if toks.len() == 1 {
        toks[0]
    } else {
        join(toks.drop_last()) + seq![' '] + toks.last()
    }
}

/// One non-blank line of a decklist: the count it asks for (0 where the leading token
/// is not a valid count) and the card name that follows.
#[derive(Clone, Debug)]
pub struct DecklistLine {
    pub quantity: i32,
    pub name: String,
}

pub struct LineModel {
    pub quantity: int,
    pub name: Seq<char>,
}

impl View for DecklistLine {
    type V = LineModel;

    open spec fn view(&self) -> LineModel {
        LineModel { quantity: self.quantity as int, name: self.name@ }
    }
}

impl DecklistLine {
    /// Whether the line asks the catalog for a card.
    pub fn needs_lookup(&self) -> (r: bool)
        ensures
            r == (self.quantity > 0),
    {
        self.quantity > 0
    }
}

pub open spec fn parsed_line(toks: Seq<Seq<char>>) -> LineModel {
    LineModel { quantity: quantity_of(toks[0]), name: join(toks.skip(1)) }
}

/// The parsed lines, blank lines left out.
pub open spec fn parse_lines(lines: Seq<Seq<char>>) -> Seq<LineModel>
    decreases lines.len(),
{
    if lines.len() == 0 {
        seq![]
    } else {
        let prev = parse_lines(lines.drop_last());
        let toks = tokens_of(lines.last());
        if toks.len() == 0 {
            prev
        } else {
            prev.push(parsed_line(toks))
        }
    }
}

pub open spec fn decklist_lines(text: Seq<char>) -> Seq<LineModel> {
    parse_lines(lines_of(text))
}

pub open spec fn count_nonblank(lines: Seq<Seq<char>>) -> nat
    decreases lines.len(),
{
    if lines.len() == 0 {
        0
    } else {
        count_nonblank(lines.drop_last()) + if is_blank(lines.last()) {
            0nat
        } else {
            1nat
        }
    }
}

pub proof fn lemma_lines_nonempty(s: Seq<char>)
    ensures
        lines_of(s).len() >= 1,
    decreases s.len(),
{
    if s.len() > 0 {
        lemma_lines_nonempty(s.drop_last());
    }
}

pub proof fn lemma_token_at_end(s: Seq<char>)
    requires
        s.len() > 0,
        !is_ws(s.last()),
    ensures
        tokens_of(s).len() >= 1,
    decreases s.len(),
{
    if s.len() >= 2 && !is_ws(s[s.len() - 2]) {
        lemma_token_at_end(s.drop_last());
    }
}

pub proof fn lemma_tokens_empty_iff_blank(s: Seq<char>)
    ensures
        (tokens_of(s).len() == 0) == is_blank(s),
    decreases s.len(),
{
    if s.len() > 0 {
        lemma_tokens_empty_iff_blank(s.drop_last());
        if is_ws(s.last()) {
            if is_blank(s.drop_last()) {
                assert forall|i: int| 0 <= i < s.len() implies is_ws(#[trigger] s[i]) by {
                    if i < s.len() - 1 {
                        assert(s[i] == s.drop_last()[i]);
                    }
                }
            } else {
                let j = choose|j: int| 0 <= j < s.len() - 1 && !is_ws(#[trigger] s.drop_last()[j]);
                assert(s[j] == s.drop_last()[j]);
            }
        } else {
            lemma_token_at_end(s);
            assert(!is_ws(s[s.len() - 1]));
        }
    }
}

pub proof fn lemma_parse_count(lines: Seq<Seq<char>>)
    ensures
        parse_lines(lines).len() == count_nonblank(lines),
    decreases lines.len(),
{
    if lines.len() > 0 {
        lemma_parse_count(lines.drop_last());
        lemma_tokens_empty_iff_blank(lines.last());
    }
}

/// Splits the text into the spans of its lines.
fn line_spans(text: &str) -> (r: Vec<(usize, usize)>)
    ensures
        r@.len() == lines_of(text@).len(),
        forall|k: int|
            0 <= k < r@.len() ==> r@[k].0 <= r@[k].1 <= text@.len() && text@.subrange(
                #[trigger] r@[k].0 as int,
                r@[k].1 as int,
            ) == lines_of(text@)[k],
{
    let n = text.unicode_len();
    let mut spans: Vec<(usize, usize)> = Vec::new();
    spans.push((0, 0));
    let mut j: usize = 0;
    proof {
        assert(text@.take(0) =~= Seq::<char>::empty());
        assert(text@.subrange(0, 0) =~= Seq::<char>::empty());
    }
    while j < n
        invariant
            n == text@.len(),
            j <= n,
            spans@.len() == lines_of(text@.take(j as int)).len(),
            spans@.len() >= 1,
            spans@.last().1 == j,
            forall|k: int|
                0 <= k < spans@.len() ==> spans@[k].0 <= spans@[k].1 <= j && text@.subrange(
                    #[trigger] spans@[k].0 as int,
                    spans@[k].1 as int,
                ) == lines_of(text@.take(j as int))[k],
        decreases n - j,
    {
        let c = text.get_char(j);
        let ghost prev = lines_of(text@.take(j as int));
        let ghost old_spans = spans@;
        proof {
            assert(text@.take(j + 1).drop_last() =~= text@.take(j as int));
            assert(text@.take(j + 1).last() == c);
            lemma_lines_nonempty(text@.take(j as int));
        }
        if c == '\n' {
            spans.push((j + 1, j + 1));
            proof {
                assert(text@.subrange(j + 1, j + 1) =~= Seq::<char>::empty());
            }
        } else {
            let last = spans.len() - 1;
            let st = spans[last].0;
            proof {
                assert(text@.subrange(st as int, j as int) == prev[last as int]);
            }
            spans.set(last, (st, j + 1));
            proof {
                assert(text@.subrange(st as int, j + 1) =~= text@.subrange(st as int, j as int).push(c));
            }
        }
        j += 1;
        proof {
            let cur = lines_of(text@.take(j as int));
            assert forall|k: int| 0 <= k < spans@.len() implies spans@[k].0 <= spans@[k].1 <= j
                && text@.subrange(#[trigger] spans@[k].0 as int, spans@[k].1 as int) == cur[k] by {
                if k < old_spans.len() - 1 || (c == '\n' && k < old_spans.len()) {
                    assert(spans@[k] == old_spans[k]);
                    assert(text@.subrange(old_spans[k].0 as int, old_spans[k].1 as int) == prev[k]);
                    assert(cur[k] == prev[k]);
                } else if c == '\n' {
                    assert(cur[k] == Seq::<char>::empty());
                } else {
                    assert(cur[k] == prev[k].push(c));
                }
            }
        }
    }
    assert(text@.take(n as int) =~= text@);
    spans
}

/// Splits the span `[a, b)` of the text into the spans of its tokens.
fn token_spans(text: &str, a: usize, b: usize) -> (r: Vec<(usize, usize)>)
    requires
        a <= b <= text@.len(),
    ensures
        r@.len() == tokens_of(text@.subrange(a as int, b as int)).len(),
        forall|k: int|
            0 <= k < r@.len() ==> a <= r@[k].0 <= r@[k].1 <= b && text@.subrange(
                #[trigger] r@[k].0 as int,
                r@[k].1 as int,
            ) == tokens_of(text@.subrange(a as int, b as int))[k],
{
    let mut spans: Vec<(usize, usize)> = Vec::new();
    let mut j: usize = a;
    let mut in_token = false;
    while j < b
        invariant
            a <= j <= b <= text@.len(),
            spans@.len() == tokens_of(text@.subrange(a as int, j as int)).len(),
            in_token == (j > a && !is_ws(text@[j - 1])),
            in_token ==> spans@.len() >= 1 && spans@.last().1 == j,
            forall|k: int|
                0 <= k < spans@.len() ==> a <= spans@[k].0 <= spans@[k].1 <= j && text@.subrange(
                    #[trigger] spans@[k].0 as int,
                    spans@[k].1 as int,
                ) == tokens_of(text@.subrange(a as int, j as int))[k],
        decreases b - j,
    {
        let c = text.get_char(j);
        let ghost s1 = text@.subrange(a as int, j + 1);
        let ghost prev = tokens_of(text@.subrange(a as int, j as int));
        proof {
            assert(s1.drop_last() =~= text@.subrange(a as int, j as int));
            assert(s1.last() == c);
            if j > a {
                assert(s1[s1.len() - 2] == text@[j - 1]);
            }
        }
        if is_whitespace(c) {
            in_token = false;
        } else if in_token {
            let last = spans.len() - 1;
            let st = spans[last].0;
            spans.set(last, (st, j + 1));
            in_token = true;
            proof {
                assert(text@.subrange(st as int, j + 1) =~= text@.subrange(st as int, j as int).push(c));
            }
        } else {
            spans.push((j, j + 1));
            in_token = true;
            proof {
                assert(text@.subrange(j as int, j + 1) =~= seq![c]);
            }
        }
        j += 1;
        proof {
            let cur = tokens_of(text@.subrange(a as int, j as int));
            assert forall|k: int| 0 <= k < spans@.len() implies a <= spans@[k].0 <= spans@[k].1
                <= j && text@.subrange(#[trigger] spans@[k].0 as int, spans@[k].1 as int)
                == cur[k] by {
                if k < spans@.len() - 1 {
                    assert(cur[k] == prev[k]);
                }
            }
        }
    }
    spans
}

pub proof fn lemma_tokens_nonempty(s: Seq<char>)
    ensures
        forall|k: int| 0 <= k < tokens_of(s).len() ==> (#[trigger] tokens_of(s)[k]).len() > 0,
    decreases s.len(),
{
    if s.len() > 0 {
        let prev = tokens_of(s.drop_last());
        lemma_tokens_nonempty(s.drop_last());
        let c = s.last();
        if !is_ws(c) {
            if s.len() >= 2 && !is_ws(s[s.len() - 2]) {
                lemma_token_at_end(s.drop_last());
                let cur = prev.update(prev.len() - 1, prev.last().push(c));
                assert forall|k: int| 0 <= k < cur.len() implies (#[trigger] cur[k]).len() > 0 by {
                    if k < cur.len() - 1 {
                        assert(cur[k] == prev[k]);
                    }
                }
            } else {
                let cur = prev.push(seq![c]);
                assert forall|k: int| 0 <= k < cur.len() implies (#[trigger] cur[k]).len() > 0 by {
                    if k < cur.len() - 1 {
                        assert(cur[k] == prev[k]);
                    }
                }
            }
        }
    }
}

pub proof fn lemma_digits_monotone(d: Seq<char>, j: int)
    requires
        0 <= j <= d.len(),
        forall|i: int| 0 <= i < d.len() ==> is_digit(#[trigger] d[i]),
    ensures
        0 <= digits_value(d.take(j)) <= digits_value(d),
    decreases d.len(),
{
    if d.len() > 0 {
        if j == d.len() {
            assert(d.take(j) =~= d);
            lemma_digits_monotone(d.drop_last(), j - 1);
        } else {
            lemma_digits_monotone(d.drop_last(), j);
            assert(d.drop_last().take(j) =~= d.take(j));
            assert(is_digit(d[d.len() - 1]));
        }
    } else {
        assert(d.take(j) =~= d);
    }
}

/// Reads the count in the span `[a, b)` of the text.
fn parse_quantity(text: &str, a: usize, b: usize) -> (r: i32)
    requires
        a < b <= text@.len(),
    ensures
        r as int == quantity_of(text@.subrange(a as int, b as int)),
{
    let ghost tok = text@.subrange(a as int, b as int);
    let mut start = a;
    if text.get_char(a) == '+' {
        start = a + 1;
    }
    let ghost d = text@.subrange(start as int, b as int);
    proof {
        assert(d =~= unsigned_part(tok));
    }
    if start == b {
        return 0;
    }
    let mut acc: i64 = 0;
    let mut j: usize = start;
    proof {
        assert(d.take(0) =~= Seq::<char>::empty());
    }
    while j < b
        invariant
            a <= start < b <= text@.len(),
            start <= j <= b,
            d == text@.subrange(start as int, b as int),
            d == unsigned_part(text@.subrange(a as int, b as int)),
            forall|i: int| 0 <= i < j - start ==> is_digit(#[trigger] d[i]),
            acc == digits_value(d.take(j - start)),
            0 <= acc <= i32::MAX,
        decreases b - j,
    {
        let c = text.get_char(j);
        let u = c as u32;
        proof {
            assert(d[j - start] == c);
            assert(d.take(j - start + 1).drop_last() =~= d.take(j - start));
        }
        if u < 0x30 || u > 0x39 {
            assert(!is_digit(d[j - start]));
            assert(!all_digits(d));
            return 0;
        }
        let v: i64 = acc * 10 + (u as i64 - 0x30);
        if v > i32::MAX as i64 {
            proof {
                if all_digits(d) {
                    lemma_digits_monotone(d, j - start + 1);
                }
            }
            return 0;
        }
        acc = v;
        j += 1;
    }
    proof {
        assert(d.take(j - start) =~= d);
    }
    if acc == 0 {
        return 0;
    }
    acc as i32
}

/// Joins the tokens after the first, whose spans are given, with single spaces.
fn join_rest(text: &str, spans: &Vec<(usize, usize)>, toks: Ghost<Seq<Seq<char>>>) -> (r: String)
    requires
        spans@.len() == toks@.len() >= 1,
        forall|k: int|
            0 <= k < spans@.len() ==> spans@[k].0 <= spans@[k].1 <= text@.len() && text@.subrange(
                #[trigger] spans@[k].0 as int,
                spans@[k].1 as int,
            ) == toks@[k],
    ensures
        r@ == join(toks@.skip(1)),
{
    let mut r = String::new();
    let mut k: usize = 1;
    proof {
        assert(toks@.subrange(1, 1) =~= Seq::<Seq<char>>::empty());
    }
    while k < spans.len()
        invariant
            1 <= k <= spans@.len() == toks@.len(),
            r@ == join(toks@.subrange(1, k as int)),
            forall|k: int|
                0 <= k < spans@.len() ==> spans@[k].0 <= spans@[k].1 <= text@.len()
                    && text@.subrange(#[trigger] spans@[k].0 as int, spans@[k].1 as int)
                    == toks@[k],
        decreases spans@.len() - k,
    {
        let (st, en) = spans[k];
        let piece = text.substring_char(st, en);
        let ghost before = r@;
        proof {
            assert(toks@.subrange(1, k + 1).drop_last() =~= toks@.subrange(1, k as int));
            assert(piece@ == toks@[k as int]);
        }
        if k > 1 {
            r.append(" ");
            r.append(piece);
            proof {
                reveal_strlit(" ");
                assert(r@ =~= before + seq![' '] + piece@);
            }
        } else {
            r.append(piece);
            proof {
                assert(r@ =~= piece@);
            }
        }
        k += 1;
    }
    proof {
        assert(toks@.subrange(1, k as int) =~= toks@.skip(1));
    }
    r
}

pub open spec fn lines_view(v: Seq<DecklistLine>) -> Seq<LineModel> {
    v.map_values(|l: DecklistLine| l@)
}

/// Parses a decklist: one entry per non-blank line, in the order of the lines, each with
/// the count of its first token and the rest of its tokens joined with single spaces.
pub fn parse_decklist(text: &str) -> (r: Vec<DecklistLine>)
    ensures
        lines_view(r@) == decklist_lines(text@),
{
    let lines = line_spans(text);
    let ghost all = lines_of(text@);
    let mut out: Vec<DecklistLine> = Vec::new();
    let mut k: usize = 0;
    proof {
        assert(all.take(0) =~= Seq::<Seq<char>>::empty());
        assert(lines_view(out@) =~= Seq::<LineModel>::empty());
    }
    while k < lines.len()
        invariant
            k <= lines@.len() == all.len(),
            all == lines_of(text@),
            forall|i: int|
                0 <= i < lines@.len() ==> lines@[i].0 <= lines@[i].1 <= text@.len()
                    && text@.subrange(#[trigger] lines@[i].0 as int, lines@[i].1 as int)
                    == all[i],
            lines_view(out@) == parse_lines(all.take(k as int)),
        decreases lines@.len() - k,
    {
        let (a, b) = lines[k];
        let toks = token_spans(text, a, b);
        let ghost line = all[k as int];
        let ghost ghost_toks = tokens_of(line);
        proof {
            assert(text@.subrange(lines@[k as int].0 as int, lines@[k as int].1 as int) == all[k as int]);
            assert(all.take(k + 1).drop_last() =~= all.take(k as int));
            assert(all.take(k + 1).last() == line);
        }
        if toks.len() > 0 {
            let (ta, tb) = toks[0];
            proof {
                lemma_tokens_nonempty(line);
                assert(text@.subrange(ta as int, tb as int).len() > 0);
            }
            let quantity = parse_quantity(text, ta, tb);
            let name = join_rest(text, &toks, Ghost(ghost_toks));
            let ghost before = out@;
            out.push(DecklistLine { quantity, name });
            proof {
                assert(lines_view(out@) =~= lines_view(before).push(parsed_line(ghost_toks)));
            }
        }
        k += 1;
    }
    proof {
        assert(all.take(k as int) =~= all);
    }
    out
}

/// Card text that a decklist line gives when its count is not valid.
pub open spec fn invalid_quantity_message() -> Seq<char> {
    "Invalid quantity"@
}

pub open spec fn lookup_view(r: Result<Card, String>) -> Result<CardModel, Seq<char>> {
    match r {
        Ok(c) => Ok(c@),
        Err(e) => Err(e@),
    }
}

pub open spec fn lookups_view(v: Seq<Result<Card, String>>) -> Seq<Result<CardModel, Seq<char>>> {
    v.map_values(|r: Result<Card, String>| lookup_view(r))
}

pub open spec fn errors_view(v: Seq<CardErrorInsight>) -> Seq<ErrorModel> {
    v.map_values(|e: CardErrorInsight| e@)
}

/// What the resolution of parsed lines gives, where `lookups[i]` is the catalog's answer
/// for line `i`: a line with an invalid count is an error, and the catalog's answer
/// decides the others.
pub open spec fn resolve_spec(
    lines: Seq<LineModel>,
    lookups: Seq<Result<CardModel, Seq<char>>>,
) -> (Seq<CardInDeckModel>, Seq<ErrorModel>)
    decreases lines.len(),
{
    if lines.len() == 0 {
        (seq![], seq![])
    } else {
        let prev = resolve_spec(lines.drop_last(), lookups);
        let l = lines.last();
        if l.quantity <= 0 {
            (prev.0, prev.1.push(ErrorModel { card_name: l.name, error: invalid_quantity_message() }))
        } else {
            match lookups[lines.len() - 1] {
                Ok(c) => (
                    prev.0.push(CardInDeckModel { quantity: l.quantity, current_quantity: 0, card: c }),
                    prev.1,
                ),
                Err(e) => (prev.0, prev.1.push(ErrorModel { card_name: l.name, error: e })),
            }
        }
    }
}

/// Resolves parsed decklist lines against the catalog's answers, one answer per line,
/// in the order of the lines; the answer for a line with an invalid count is not read.
pub fn resolve_decklist(lines: &Vec<DecklistLine>, lookups: &Vec<Result<Card, String>>) -> (r: (
    Vec<CardInDeck>,
    Vec<CardErrorInsight>,
))
    requires
        lookups@.len() == lines@.len(),
    ensures
        cards_view(r.0@) == resolve_spec(lines_view(lines@), lookups_view(lookups@)).0,
        errors_view(r.1@) == resolve_spec(lines_view(lines@), lookups_view(lookups@)).1,
{
    let ghost lv = lines_view(lines@);
    let ghost kv = lookups_view(lookups@);
    let mut cards: Vec<CardInDeck> = Vec::new();
    let mut errors: Vec<CardErrorInsight> = Vec::new();
    let mut i: usize = 0;
    proof {
        assert(lv.take(0) =~= Seq::<LineModel>::empty());
        assert(cards_view(cards@) =~= Seq::<CardInDeckModel>::empty());
        assert(errors_view(errors@) =~= Seq::<ErrorModel>::empty());
    }
    while i < lines.len()
        invariant
            i <= lines@.len() == lookups@.len(),
            lv == lines_view(lines@),
            kv == lookups_view(lookups@),
            cards_view(cards@) == resolve_spec(lv.take(i as int), kv).0,
            errors_view(errors@) == resolve_spec(lv.take(i as int), kv).1,
        decreases lines@.len() - i,
    {
        let line = &lines[i];
        let ghost cb = cards@;
        let ghost eb = errors@;
        proof {
            assert(lv.take(i + 1).drop_last() =~= lv.take(i as int));
            assert(lv.take(i + 1).last() == line@);
            assert(kv[i as int] == lookup_view(lookups@[i as int]));
        }
        if line.quantity <= 0 {
            errors.push(CardErrorInsight::new(line.name.as_str(), "Invalid quantity"));
            proof {
                assert(errors_view(errors@) =~= errors_view(eb).push(
                    ErrorModel { card_name: line.name@, error: invalid_quantity_message() },
                ));
            }
        } else {
            match &lookups[i] {
                Ok(c) => {
                    cards.push(
                        CardInDeck { quantity: line.quantity, current_quantity: 0, card: c.duplicate() },
                    );
                    proof {
                        assert(cards_view(cards@) =~= cards_view(cb).push(
                            CardInDeckModel { quantity: line.quantity as int, current_quantity: 0, card: c@ },
                        ));
                    }
                },
                Err(e) => {
                    errors.push(CardErrorInsight { card_name: line.name.clone(), error: e.clone() });
                    proof {
                        assert(errors_view(errors@) =~= errors_view(eb).push(
                            ErrorModel { card_name: line.name@, error: e@ },
                        ));
                    }
                },
            }
        }
        i += 1;
    }
    proof {
        assert(lv.take(i as int) =~= lv);
    }
    (cards, errors)
}

proof fn lemma_resolve_sizes(lines: Seq<LineModel>, lookups: Seq<Result<CardModel, Seq<char>>>)
    ensures
        resolve_spec(lines, lookups).0.len() + resolve_spec(lines, lookups).1.len() == lines.len(),
    decreases lines.len(),
{
    if lines.len() > 0 {
        lemma_resolve_sizes(lines.drop_last(), lookups);
    }
}

/// Every non-blank line of a decklist ends up in exactly one of the two outputs of its
/// resolution, whatever the catalog answers, and blank lines in neither: together the
/// outputs hold as many entries as the text has non-blank lines, never more.
pub proof fn lemma_resolution_accounts_for_lines(
    text: Seq<char>,
    lookups: Seq<Result<CardModel, Seq<char>>>,
)
    ensures
        resolve_spec(decklist_lines(text), lookups).0.len() + resolve_spec(
            decklist_lines(text),
            lookups,
        ).1.len() == count_nonblank(lines_of(text)),
        resolve_spec(decklist_lines(text), lookups).0.len() + resolve_spec(
            decklist_lines(text),
            lookups,
        ).1.len() <= count_nonblank(lines_of(text)),
{
    lemma_resolve_sizes(decklist_lines(text), lookups);
    lemma_parse_count(lines_of(text));
}

/// A line with a valid count whose name the catalog resolves gives a deck entry with that
/// count, none of it at hand, and the catalog's card; and every resolved entry starts with
/// none at hand and a positive count.
pub proof fn lemma_resolved_lines_keep_counts(
    lines: Seq<LineModel>,
    lookups: Seq<Result<CardModel, Seq<char>>>,
)
    ensures
        forall|i: int|
            0 <= i < lines.len() && lines[i].quantity > 0 && (#[trigger] lookups[i]) is Ok
                ==> resolve_spec(lines, lookups).0.contains(
                CardInDeckModel {
                    quantity: lines[i].quantity,
                    current_quantity: 0,
                    card: lookups[i]->Ok_0,
                },
            ),
        forall|j: int|
            0 <= j < resolve_spec(lines, lookups).0.len() ==> (#[trigger] resolve_spec(
                lines,
                lookups,
            ).0[j]).current_quantity == 0 && resolve_spec(lines, lookups).0[j].quantity > 0,
    decreases lines.len(),
{
    if lines.len() > 0 {
        let prev = resolve_spec(lines.drop_last(), lookups);
        let cur = resolve_spec(lines, lookups);
        lemma_resolved_lines_keep_counts(lines.drop_last(), lookups);
        assert forall|i: int|
            0 <= i < lines.len() && lines[i].quantity > 0 && (#[trigger] lookups[i]) is Ok
                implies cur.0.contains(
            CardInDeckModel {
                quantity: lines[i].quantity,
                current_quantity: 0,
                card: lookups[i]->Ok_0,
            },
        ) by {
            let e = CardInDeckModel {
                quantity: lines[i].quantity,
                current_quantity: 0,
                card: lookups[i]->Ok_0,
            };
            if i < lines.len() - 1 {
                assert(lines.drop_last()[i] == lines[i]);
                let j = choose|j: int| 0 <= j < prev.0.len() && prev.0[j] == e;
                assert(cur.0[j] == e);
            } else {
                assert(cur.0[cur.0.len() - 1] == e);
            }
        }
    }
}

} // verus!
