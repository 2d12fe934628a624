//! Labels: the names of tags and categories, and how they are typed.
use vstd::prelude::*;

use crate::error::{Error, ErrorView};
use crate::number::{decimal, law_number_round_trip, read_number, written};
use crate::order::{lemma_in_order, lemma_text_order_strict, sorted, text_order};
use crate::tags::{listed, TagSet};
use crate::text::{
    blank, filled, join, joined, law_joined, law_words, lemma_filter_all, lemma_pieces_joined,
    lemma_pieces_of_unbroken, lemma_pieces_split, lemma_trimmed_blank, lemma_trimmed_same,
    lemma_words, lemma_words_blank, lemma_words_trimmed, pieces, split, texts, trim, trimmed,
    unbroken, white, words, words_of, Separator,
};

verus! {

/// A label in its proper form: its words, one space between them.
pub open spec fn clean(s: Seq<char>) -> Seq<char> {
    joined(words_of(s), seq![' '])
}

/// Brings a label into its proper form: no white space at either end, and one space between
/// words.
pub fn clean_label(value: &str) -> (r: String)
    ensures
        r@ == clean(value@),
{
    proof {
        reveal_strlit(" ");
        assert(" "@ =~= seq![' ']);
    }
    join(&words(value), " ")
}

/// None of the values is a label.
pub open spec fn no_labels(values: Seq<Seq<char>>) -> bool {
    forall|i: int| 0 <= i < values.len() ==> clean(#[trigger] values[i]).len() == 0
}

/// Refuses a list of values without a label in it. The refusal names what is missing.
pub fn ensure_values(values: &[String], name: &str) -> (r: Result<(), Error>)
    ensures
        r is Err <==> no_labels(texts(values@)),
        r matches Err(e) ==> e@ == ErrorView::MissingValue(name@),
{
    let mut i: usize = 0;
    while i < values.len()
        invariant
            i <= values@.len(),
            forall|j: int| 0 <= j < i ==> clean(#[trigger] texts(values@)[j]).len() == 0,
        decreases values@.len() - i,
    {
        if !clean_label(values[i].as_str()).as_str().is_empty() {
            assert(clean(texts(values@)[i as int]).len() > 0);
            return Ok(());
        }
        i += 1;
    }
    Err(Error::MissingValue(name.to_owned()))
}

/// The suggestion with a number, counted from one. Zero counts as one.
pub open spec fn suggestion(n: usize, suggestions: Seq<Seq<char>>) -> Option<Seq<char>> {
    let i = if n == 0 {
        0
    } else {
        n - 1
    };
    if i < suggestions.len() {
        Some(suggestions[i])
    } else {
        None
    }
}

/// Finds the suggestion with a number.
pub fn find_suggestion(n: usize, suggestions: &[String]) -> (r: Option<String>)
    ensures
        r is Some <==> suggestion(n, texts(suggestions@)) is Some,
        r matches Some(v) ==> Some(v@) == suggestion(n, texts(suggestions@)),
{
    let i = n.saturating_sub(1);
    if i < suggestions.len() {
        Some(suggestions[i].clone())
    } else {
        None
    }
}

/// What one part of an answer stands for: the suggestion whose number it is, or else the label
/// that it spells. A part of white space stands for nothing.
pub open spec fn picked(part: Seq<char>, suggestions: Seq<Seq<char>>) -> Option<Seq<char>> {
    let token = trimmed(part);
    if token.len() == 0 {
        None
    } else if written(token) is Some && suggestion(written(token)->0, suggestions) is Some {
        suggestion(written(token)->0, suggestions)
    } else if clean(token).len() > 0 {
        Some(clean(token))
    } else {
        None
    }
}

/// What an answer of parts between commas stands for.
pub open spec fn numbered_values(answer: Seq<char>, suggestions: Seq<Seq<char>>) -> Set<
    Seq<char>,
> {
    picked_from(pieces(Separator::Char(','), answer), suggestions)
}

/// What the parts of an answer stand for.
pub open spec fn picked_from(parts: Seq<Seq<char>>, suggestions: Seq<Seq<char>>) -> Set<
    Seq<char>,
> {
    Set::new(
        |v: Seq<char>|
            exists|i: int|
                0 <= i < parts.len() && #[trigger] picked(parts[i], suggestions) == Some(v),
    )
}

/// Finds what one part of an answer stands for.
fn pick(part: &str, suggestions: &[String]) -> (r: Option<String>)
    ensures
        r is Some <==> picked(part@, texts(suggestions@)) is Some,
        r matches Some(v) ==> Some(v@) == picked(part@, texts(suggestions@)),
{
    let token = trim(part);
    if token.is_empty() {
        return None;
    }
    if let Some(n) = read_number(token) {
        if let Some(value) = find_suggestion(n, suggestions) {
            return Some(value);
        }
    }
    let cleaned = clean_label(token);
    if cleaned.as_str().is_empty() {
        None
    } else {
        Some(cleaned)
    }
}

/// Reads an answer of suggestion numbers and new labels between commas. Each value comes once,
/// in order.
pub fn parse_numbered_input(answer: &str, suggestions: &[String]) -> (r: Vec<String>)
    ensures
        texts(r@) == listed(numbered_values(answer@, texts(suggestions@))),
        texts(r@).to_set() == numbered_values(answer@, texts(suggestions@)),
        sorted(texts(r@), text_order()),
{
    let parts = split(answer, Separator::Char(','));
    let mut values = TagSet::new();
    let mut i: usize = 0;
    let ghost all = texts(parts@);
    let ghost shown = texts(suggestions@);
    assert(picked_from(all.take(0), shown) =~= Set::empty());
    while i < parts.len()
        invariant
            i <= parts@.len(),
            all == texts(parts@),
            shown == texts(suggestions@),
            values@ == picked_from(all.take(i as int), shown),
        decreases parts@.len() - i,
    {
        let ghost before = values@;
        let part = pick(parts[i].as_str(), suggestions);
        assert(all[i as int] == parts@[i as int]@);
        proof {
            lemma_picked_from_one_more(all, i as int, shown);
        }
        if let Some(value) = part {
            values.insert(value);
        }
        i += 1;
    }
    assert(all.take(i as int) =~= all);
    values.names()
}

proof fn lemma_picked_from_one_more(parts: Seq<Seq<char>>, i: int, suggestions: Seq<Seq<char>>)
    requires
        0 <= i < parts.len(),
    ensures
        picked_from(parts.take(i + 1), suggestions) == match picked(parts[i], suggestions) {
            Some(v) => picked_from(parts.take(i), suggestions).insert(v),
            None => picked_from(parts.take(i), suggestions),
        },
{
    let a = picked_from(parts.take(i), suggestions);
    let b = picked_from(parts.take(i + 1), suggestions);
    assert forall|v: Seq<char>| b.contains(v) <==> a.contains(v) || picked(parts[i], suggestions)
        == Some(v) by {
        if a.contains(v) {
            let j = choose|j: int|
                0 <= j < i && #[trigger] picked(parts.take(i)[j], suggestions) == Some(v);
            assert(picked(parts.take(i + 1)[j], suggestions) == Some(v));
        }
        if b.contains(v) {
            let j = choose|j: int|
                0 <= j < i + 1 && #[trigger] picked(parts.take(i + 1)[j], suggestions) == Some(v);
            if j < i {
                assert(picked(parts.take(i)[j], suggestions) == Some(v));
            }
        }
        if picked(parts[i], suggestions) == Some(v) {
            assert(picked(parts.take(i + 1)[i], suggestions) == Some(v));
        }
    }
    match picked(parts[i], suggestions) {
        Some(v) => {
            assert(b =~= a.insert(v));
        },
        None => {
            assert(b =~= a);
        },
    }
}

/// The category that an answer stands for: none where it is empty, the suggestion with its
/// number where it is one, and else the label that it spells.
pub open spec fn category_choice(answer: Seq<char>, suggestions: Seq<Seq<char>>) -> Option<
    Seq<char>,
> {
    let token = trimmed(answer);
    if token.len() == 0 {
        None
    } else if written(token) is Some {
        suggestion(written(token)->0, suggestions)
    } else {
        Some(clean(answer))
    }
}

/// Finds the category that an answer stands for.
pub fn choose_category(answer: &str, suggestions: &[String]) -> (r: Option<String>)
    ensures
        r is Some <==> category_choice(answer@, texts(suggestions@)) is Some,
        r matches Some(v) ==> Some(v@) == category_choice(answer@, texts(suggestions@)),
{
    let token = trim(answer);
    if token.is_empty() {
        None
    } else if let Some(n) = read_number(token) {
        find_suggestion(n, suggestions)
    } else {
        Some(clean_label(answer))
    }
}

/// A label that needs no cleaning: no white space at either end, and none within but single
/// spaces.
pub open spec fn tidy(s: Seq<char>) -> bool {
    &&& s.len() > 0 ==> !white(s.first())
    &&& forall|i: int|
        0 <= i < s.len() && white(#[trigger] s[i]) ==> s[i] == ' ' && i + 1 < s.len() && !white(
            s[i + 1],
        )
}

proof fn lemma_joined_tidy(parts: Seq<Seq<char>>)
    requires
        forall|i: int|
            0 <= i < parts.len() ==> #[trigger] parts[i].len() > 0 && unbroken(
                Separator::White,
                parts[i],
            ),
    ensures
        tidy(joined(parts, seq![' '])),
        parts.len() > 0 ==> joined(parts, seq![' ']).len() > 0,
    decreases parts.len(),
{
    if parts.len() == 1 {
        assert(unbroken(Separator::White, parts[0]));
        assert forall|i: int| 0 <= i < parts[0].len() implies !white(#[trigger] parts[0][i]) by {
            assert(!Separator::White.splits_at(parts[0][i]));
        }
        assert(!white(parts[0][0]));
    } else if parts.len() > 1 {
        lemma_joined_tidy(parts.drop_last());
        let a = joined(parts.drop_last(), seq![' ']);
        let w = parts[parts.len() - 1];
        assert(unbroken(Separator::White, w));
        assert forall|i: int| 0 <= i < w.len() implies !white(#[trigger] w[i]) by {
            assert(!Separator::White.splits_at(w[i]));
        }
        let s = joined(parts, seq![' ']);
        assert(s =~= a.push(' ') + w);
        assert(s.first() == a.first());
        assert forall|i: int| 0 <= i < s.len() && white(#[trigger] s[i]) implies s[i] == ' ' && i
            + 1 < s.len() && !white(s[i + 1]) by {
            if i < a.len() {
                assert(s[i] == a[i]);
                assert(white(a[i]));
                assert(s[i + 1] == a[i + 1]);
            } else if i == a.len() {
                assert(s[i + 1] == w[0]);
            } else {
                assert(s[i] == w[i - a.len() - 1]);
            }
        }
    }
}

/// A cleaned label is tidy.
pub proof fn law_clean_is_tidy(s: Seq<char>)
    ensures
        tidy(clean(s)),
{
    lemma_words(s);
    lemma_joined_tidy(words_of(s));
}

/// Cleaning a cleaned label changes nothing.
pub proof fn law_clean_idempotent(s: Seq<char>)
    ensures
        clean(clean(s)) == clean(s),
{
    let parts = words_of(s);
    lemma_words(s);
    if parts.len() > 0 {
        lemma_pieces_joined(Separator::White, parts, ' ');
        lemma_filter_all(parts, filled());
    } else {
        lemma_words_blank(clean(s));
    }
}

/// White space around a label does not matter.
pub proof fn law_clean_ignores_ends(s: Seq<char>)
    ensures
        clean(trimmed(s)) == clean(s),
{
    lemma_words_trimmed(s);
}

/// Nothing is left of a label exactly where it is all white space.
pub proof fn law_clean_empty(s: Seq<char>)
    ensures
        clean(s).len() == 0 <==> blank(s),
{
    lemma_words(s);
    lemma_joined_tidy(words_of(s));
    lemma_words_blank(s);
}

/// Typing the number that stands beside a suggestion picks that suggestion, and nothing else.
pub proof fn law_shown_number_picks(suggestions: Seq<Seq<char>>, i: usize)
    requires
        i < suggestions.len(),
        i < usize::MAX,
    ensures
        numbered_values(decimal((i + 1) as nat), suggestions) == set![suggestions[i as int]],
        listed(numbered_values(decimal((i + 1) as nat), suggestions)) == seq![
            suggestions[i as int],
        ],
        category_choice(decimal((i + 1) as nat), suggestions) == Some(suggestions[i as int]),
{
    let n = (i + 1) as usize;
    let s = decimal(n as nat);
    law_number_round_trip(n);
    lemma_decimal_plain(n as nat);
    lemma_trimmed_same(s);
    lemma_pieces_of_unbroken(Separator::Char(','), s);
    let values = numbered_values(s, suggestions);
    let parts = pieces(Separator::Char(','), s);
    assert(picked(s, suggestions) == Some(suggestions[i as int]));
    assert(parts[0] == s);
    assert(values =~= set![suggestions[i as int]]);
    let q = seq![suggestions[i as int]];
    assert(q.to_set() =~= values) by {
        assert(q[0] == suggestions[i as int]);
    }
    lemma_text_order_strict();
    lemma_in_order(q, text_order());
}

/// A number in decimal holds no white space and no comma.
pub proof fn lemma_decimal_plain(n: nat)
    ensures
        decimal(n).len() > 0,
        forall|i: int| 0 <= i < decimal(n).len() ==> !white(#[trigger] decimal(n)[i]),
        unbroken(Separator::Char(','), decimal(n)),
    decreases n,
{
    if n >= 10 {
        lemma_decimal_plain(n / 10);
        assert forall|i: int| 0 <= i < decimal(n).len() implies !white(#[trigger] decimal(n)[i])
            && decimal(n)[i] != ',' by {
            if i < decimal(n / 10).len() {
                assert(decimal(n)[i] == decimal(n / 10)[i]);
                assert(!Separator::Char(',').splits_at(decimal(n / 10)[i]));
            }
        }
    }
}

/// Each value that an answer gives is a suggestion or a tidy label with something in it.
pub proof fn law_values_are_suggestions_or_tidy(
    answer: Seq<char>,
    suggestions: Seq<Seq<char>>,
    v: Seq<char>,
)
    requires
        numbered_values(answer, suggestions).contains(v),
    ensures
        suggestions.contains(v) || (tidy(v) && v.len() > 0),
{
    let parts = pieces(Separator::Char(','), answer);
    let i = choose|i: int|
        0 <= i < parts.len() && #[trigger] picked(parts[i], suggestions) == Some(v);
    law_clean_is_tidy(trimmed(parts[i]));
}

/// An answer gives nothing exactly where nothing but white space and commas is typed.
pub proof fn law_empty_answer(answer: Seq<char>, suggestions: Seq<Seq<char>>)
    ensures
        numbered_values(answer, suggestions) == Set::<Seq<char>>::empty() <==> forall|i: int|
            0 <= i < pieces(Separator::Char(','), answer).len() ==> blank(
                #[trigger] pieces(Separator::Char(','), answer)[i],
            ),
{
    let parts = pieces(Separator::Char(','), answer);
    let values = numbered_values(answer, suggestions);
    assert forall|i: int| 0 <= i < parts.len() implies (picked(#[trigger] parts[i], suggestions)
        is None <==> blank(parts[i])) by {
        lemma_trimmed_blank(parts[i]);
        law_clean_ignores_ends(parts[i]);
        law_clean_empty(parts[i]);
    }
    if values == Set::<Seq<char>>::empty() {
        assert forall|i: int| 0 <= i < parts.len() implies blank(#[trigger] parts[i]) by {
            if picked(parts[i], suggestions) is Some {
                assert(values.contains(picked(parts[i], suggestions)->0));
            }
        }
    }
    if forall|i: int| 0 <= i < parts.len() ==> blank(#[trigger] parts[i]) {
        assert(values =~= Set::<Seq<char>>::empty());
    }
}

/// The order and the repetition of the parts of an answer do not matter.
pub proof fn law_answer_order_free(
    a: Seq<char>,
    b: Seq<char>,
    suggestions: Seq<Seq<char>>,
)
    requires
        pieces(Separator::Char(','), a).to_set() == pieces(Separator::Char(','), b).to_set(),
    ensures
        numbered_values(a, suggestions) == numbered_values(b, suggestions),
{
    let p = pieces(Separator::Char(','), a);
    let q = pieces(Separator::Char(','), b);
    assert forall|v: Seq<char>|
        numbered_values(a, suggestions).contains(v) <==> numbered_values(
            b,
            suggestions,
        ).contains(v) by {
        if numbered_values(a, suggestions).contains(v) {
            let i = choose|i: int|
                0 <= i < p.len() && #[trigger] picked(p[i], suggestions) == Some(v);
            assert(p.to_set().contains(p[i]));
            assert(q.contains(p[i]));
            let j = q.index_of(p[i]);
            assert(picked(q[j], suggestions) == Some(v));
        }
        if numbered_values(b, suggestions).contains(v) {
            let i = choose|i: int|
                0 <= i < q.len() && #[trigger] picked(q[i], suggestions) == Some(v);
            assert(q.to_set().contains(q[i]));
            assert(p.contains(q[i]));
            let j = p.index_of(q[i]);
            assert(picked(p[j], suggestions) == Some(v));
        }
    }
    assert(numbered_values(a, suggestions) =~= numbered_values(b, suggestions));
}

proof fn lemma_finitely_many_picked(parts: Seq<Seq<char>>, suggestions: Seq<Seq<char>>)
    ensures
        picked_from(parts, suggestions).finite(),
    decreases parts.len(),
{
    if parts.len() == 0 {
        assert(picked_from(parts, suggestions) =~= Set::<Seq<char>>::empty());
    } else {
        let n = parts.len() - 1;
        lemma_finitely_many_picked(parts.drop_last(), suggestions);
        lemma_picked_from_one_more(parts, n, suggestions);
        assert(parts.take(n) =~= parts.drop_last());
        assert(parts.take(n + 1) =~= parts);
    }
}

/// An answer gives finitely many values.
pub proof fn law_finitely_many_values(answer: Seq<char>, suggestions: Seq<Seq<char>>)
    ensures
        numbered_values(answer, suggestions).finite(),
{
    lemma_finitely_many_picked(pieces(Separator::Char(','), answer), suggestions);
}

/// Two answers with a comma between them give what each of them gives.
pub proof fn law_answers_add_up(a: Seq<char>, b: Seq<char>, suggestions: Seq<Seq<char>>)
    ensures
        numbered_values(a.push(',') + b, suggestions) == numbered_values(a, suggestions).union(
            numbered_values(b, suggestions),
        ),
{
    let sep = Separator::Char(',');
    let p = pieces(sep, a);
    let q = pieces(sep, b);
    lemma_pieces_split(sep, a, ',', b);
    let both = numbered_values(a.push(',') + b, suggestions);
    let each = numbered_values(a, suggestions).union(numbered_values(b, suggestions));
    assert forall|v: Seq<char>| both.contains(v) <==> each.contains(v) by {
        if both.contains(v) {
            let i = choose|i: int|
                0 <= i < (p + q).len() && #[trigger] picked((p + q)[i], suggestions) == Some(v);
            if i < p.len() {
                assert(picked(p[i], suggestions) == Some(v));
            } else {
                assert(picked(q[i - p.len()], suggestions) == Some(v));
            }
        }
        if numbered_values(a, suggestions).contains(v) {
            let i = choose|i: int|
                0 <= i < p.len() && #[trigger] picked(p[i], suggestions) == Some(v);
            assert(picked((p + q)[i], suggestions) == Some(v));
        }
        if numbered_values(b, suggestions).contains(v) {
            let i = choose|i: int|
                0 <= i < q.len() && #[trigger] picked(q[i], suggestions) == Some(v);
            assert(picked((p + q)[p.len() + i], suggestions) == Some(v));
        }
    }
    assert(both =~= each);
}

/// Cleaning changes no word of a label.
pub proof fn law_clean_keeps_words(s: Seq<char>)
    ensures
        words_of(clean(s)) == words_of(s),
{
    let parts = words_of(s);
    lemma_words(s);
    if parts.len() > 0 {
        lemma_pieces_joined(Separator::White, parts, ' ');
        lemma_filter_all(parts, filled());
    } else {
        lemma_words_blank(clean(s));
        assert(words_of(clean(s)) =~= parts);
    }
}

/// A tidy label is left as it is.
pub proof fn law_tidy_is_clean(s: Seq<char>)
    requires
        s.len() > 0 ==> !white(s.first()),
        forall|i: int|
            0 <= i < s.len() && white(#[trigger] s[i]) ==> s[i] == ' ' && i + 1 < s.len() && !white(
                s[i + 1],
            ),
    ensures
        clean(s) == s,
    decreases s.len(),
{
    if forall|i: int| 0 <= i < s.len() ==> !white(#[trigger] s[i]) {
        law_words(s, ' ', Seq::empty());
        if s.len() == 0 {
            assert(s =~= Seq::empty());
            assert(clean(s) =~= s);
        } else {
            law_joined(Seq::empty(), s, seq![' ']);
        }
    } else {
        let k = choose|i: int| 0 <= i < s.len() && white(#[trigger] s[i]);
        let i = lemma_last_white(s, k);
        let a = s.take(i);
        let w = s.skip(i + 1);
        assert(s =~= a.push(' ') + w);
        assert(w[0] == s[i + 1]);
        assert forall|j: int| 0 <= j < w.len() implies !white(#[trigger] w[j]) by {
            assert(w[j] == s[i + 1 + j]);
        }
        assert(i > 0) by {
            if i == 0 {
                assert(white(s[0]));
            }
        }
        assert(!white(a.last())) by {
            if white(s[i - 1]) {
                assert(!white(s[i]));
            }
        }
        assert forall|j: int| 0 <= j < a.len() && white(#[trigger] a[j]) implies a[j] == ' ' && j + 1
            < a.len() && !white(a[j + 1]) by {
            assert(a[j] == s[j]);
            if j + 1 < a.len() {
                assert(a[j + 1] == s[j + 1]);
            }
        }
        law_tidy_is_clean(a);
        law_words(a, ' ', w);
        law_words(w, ' ', Seq::empty());
        lemma_words_blank(a);
        assert(words_of(a).len() > 0) by {
            assert(!white(a[0]));
        }
        law_joined(words_of(a), w, seq![' ']);
        assert(words_of(a) + seq![w] =~= words_of(a).push(w));
        assert(clean(s) =~= a + seq![' '] + w);
    }
}

proof fn lemma_last_white(s: Seq<char>, k: int) -> (i: int)
    requires
        0 <= k < s.len(),
        white(s[k]),
    ensures
        0 <= i < s.len(),
        white(s[i]),
        forall|j: int| i < j < s.len() ==> !white(#[trigger] s[j]),
    decreases s.len() - k,
{
    if exists|j: int| k < j < s.len() && white(#[trigger] s[j]) {
        let j = choose|j: int| k < j < s.len() && white(#[trigger] s[j]);
        lemma_last_white(s, j)
    } else {
        k
    }
}

/// Values hold no label exactly where each of them is all white space.
pub proof fn law_no_labels(values: Seq<Seq<char>>)
    ensures
        no_labels(values) <==> forall|i: int|
            0 <= i < values.len() ==> blank(#[trigger] values[i]),
{
    assert forall|i: int| 0 <= i < values.len() implies (clean(#[trigger] values[i]).len() == 0
        <==> blank(values[i])) by {
        law_clean_empty(values[i]);
    }
}

/// A number picks the suggestion that it counts from one, zero the first, and one that is too
/// large none.
pub proof fn law_suggestion(n: usize, suggestions: Seq<Seq<char>>)
    ensures
        1 <= n <= suggestions.len() ==> suggestion(n, suggestions) == Some(suggestions[n - 1]),
        n == 0 && suggestions.len() > 0 ==> suggestion(n, suggestions) == Some(suggestions[0]),
        n > suggestions.len() || suggestions.len() == 0 ==> suggestion(n, suggestions) is None,
{
}

/// An answer without a comma gives one value, unless it is all white space: the suggestion whose
/// number it is, where it is one, and else what is left of it when it is cleaned.
pub proof fn law_one_part(part: Seq<char>, suggestions: Seq<Seq<char>>)
    requires
        !part.contains(','),
    ensures
        blank(part) ==> numbered_values(part, suggestions) == Set::<Seq<char>>::empty(),
        !blank(part) ==> numbered_values(part, suggestions) == match written(trimmed(part)) {
            Some(n) => if 1 <= n <= suggestions.len() {
                set![suggestions[n - 1]]
            } else if n == 0 && suggestions.len() > 0 {
                set![suggestions[0]]
            } else {
                set![clean(part)]
            },
            None => set![clean(part)],
        },
{
    let sep = Separator::Char(',');
    assert forall|i: int| 0 <= i < part.len() implies !sep.splits_at(#[trigger] part[i]) by {
        assert(part.contains(part[i]));
    }
    lemma_pieces_of_unbroken(sep, part);
    lemma_trimmed_blank(part);
    law_clean_ignores_ends(part);
    law_clean_empty(part);
    let parts = pieces(sep, part);
    assert(parts[0] == part);
    let values = numbered_values(part, suggestions);
    match picked(part, suggestions) {
        Some(v) => {
            assert(values =~= set![v]);
        },
        None => {
            assert(values =~= Set::<Seq<char>>::empty());
        },
    }
}

/// A category is not set by white space; a number chooses the suggestion that it counts, or none
/// where there is none; and any other answer is cleaned.
pub proof fn law_category_choice(answer: Seq<char>, suggestions: Seq<Seq<char>>)
    ensures
        blank(answer) ==> category_choice(answer, suggestions) is None,
        !blank(answer) ==> category_choice(answer, suggestions) == match written(trimmed(answer)) {
            Some(n) => if 1 <= n <= suggestions.len() {
                Some(suggestions[n - 1])
            } else if n == 0 && suggestions.len() > 0 {
                Some(suggestions[0])
            } else {
                None
            },
            None => Some(clean(answer)),
        },
{
    lemma_trimmed_blank(answer);
}

} // verus!
