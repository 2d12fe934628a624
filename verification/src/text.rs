//! Texts as sequences of characters: white space, splitting, trimming and joining.
use vstd::prelude::*;

verus! {

/// The characters with the Unicode property `White_Space`.
pub open spec fn white(c: char) -> bool {
    let n = c as u32;
    ||| 0x9 <= n <= 0xd
    ||| n == 0x20
    ||| n == 0x85
    ||| n == 0xa0
    ||| n == 0x1680
    ||| 0x2000 <= n <= 0x200a
    ||| n == 0x2028
    ||| n == 0x2029
    ||| n == 0x202f
    ||| n == 0x205f
    ||| n == 0x3000
}

/// Whether a character has the Unicode property `White_Space`.
pub fn is_white(c: char) -> (r: bool)
    ensures
        r == white(c),
{
    let n = c as u32;
    (0x9 <= n && n <= 0xd) || n == 0x20 || n == 0x85 || n == 0xa0 || n == 0x1680 || (0x2000 <= n
        && n <= 0x200a) || n == 0x2028 || n == 0x2029 || n == 0x202f || n == 0x205f || n == 0x3000
}

/// What a text is split at.
#[derive(Debug, Clone, Copy)]
pub enum Separator {
    /// Any white space.
    White,
    /// One character.
    Char(char),
}

impl Separator {
    pub open spec fn splits_at(self, c: char) -> bool {
        match self {
            Separator::White => white(c),
            Separator::Char(d) => c == d,
        }
    }

    fn is_at(&self, c: char) -> (r: bool)
        ensures
            r == self.splits_at(c),
    {
        match self {
            Separator::White => is_white(c),
            Separator::Char(d) => c == *d,
        }
    }
}

/// What stands before, between and after the separators of a text, empty pieces included.
pub open spec fn pieces(sep: Separator, s: Seq<char>) -> Seq<Seq<char>>
    decreases s.len(),
{
    if s.len() == 0 {
        seq![Seq::empty()]
    } else {
        let before = pieces(sep, s.drop_last());
        if sep.splits_at(s.last()) {
            before.push(Seq::empty())
        } else {
            before.drop_last().push(before.last().push(s.last()))
        }
    }
}

/// A text is not empty.
pub open spec fn filled() -> spec_fn(Seq<char>) -> bool {
    |p: Seq<char>| p.len() > 0
}

/// The words of a text: its longest runs of characters that are no white space.
pub open spec fn words_of(s: Seq<char>) -> Seq<Seq<char>> {
    pieces(Separator::White, s).filter(filled())
}

/// A text without the white space it begins with.
pub open spec fn trimmed_start(s: Seq<char>) -> Seq<char>
    decreases s.len(),
{
    if s.len() > 0 && white(s.first()) {
        trimmed_start(s.drop_first())
    } else {
        s
    }
}

/// A text without the white space it ends with.
pub open spec fn trimmed_end(s: Seq<char>) -> Seq<char>
    decreases s.len(),
{
    if s.len() > 0 && white(s.last()) {
        trimmed_end(s.drop_last())
    } else {
        s
    }
}

/// A text without white space at either end.
pub open spec fn trimmed(s: Seq<char>) -> Seq<char> {
    trimmed_end(trimmed_start(s))
}

/// A text of nothing but white space.
pub open spec fn blank(s: Seq<char>) -> bool {
    forall|i: int| 0 <= i < s.len() ==> white(#[trigger] s[i])
}

/// The parts of a text put together with `glue` between them.
pub open spec fn joined(parts: Seq<Seq<char>>, glue: Seq<char>) -> Seq<char>
    decreases parts.len(),
{
    if parts.len() == 0 {
        Seq::empty()
    } else if parts.len() == 1 {
        parts.last()
    } else {
        joined(parts.drop_last(), glue) + (glue + parts.last())
    }
}

/// What the texts in a vector hold.
pub open spec fn texts(v: Seq<String>) -> Seq<Seq<char>> {
    Seq::new(v.len(), |i: int| v[i]@)
}

/// The characters of a text.
fn characters(text: &str) -> (r: Vec<char>)
    ensures
        r@ == text@,
{
    let mut r: Vec<char> = Vec::new();
    for c in it: text.chars()
        invariant
            it.seq() == text@,
            r@ == text@.take(it.index() as int),
    {
        r.push(c);
        assert(text@.take(it.index() + 1) =~= text@.take(it.index() as int).push(c));
    }
    assert(text@.take(text@.len() as int) =~= text@);
    r
}

/// Splits a text at every separator.
pub fn split(text: &str, sep: Separator) -> (r: Vec<String>)
    ensures
        texts(r@) == pieces(sep, text@),
{
    let chars = characters(text);
    let mut r: Vec<String> = Vec::new();
    let mut start: usize = 0;
    let mut i: usize = 0;
    assert(text@.take(0) =~= Seq::empty());
    assert(text@.subrange(0, 0) =~= Seq::empty());
    assert(texts(r@).push(text@.subrange(0, 0)) =~= pieces(sep, text@.take(0)));
    while i < chars.len()
        invariant
            chars@ == text@,
            start <= i <= chars@.len(),
            texts(r@).push(text@.subrange(start as int, i as int)) =~= pieces(
                sep,
                text@.take(i as int),
            ),
        decreases chars@.len() - i,
    {
        let ghost so_far = text@.take(i as int);
        let ghost piece = text@.subrange(start as int, i as int);
        assert(text@.take(i + 1).drop_last() =~= so_far);
        assert(text@.take(i + 1).last() == text@[i as int]);
        assert(pieces(sep, so_far).last() == piece);
        assert(pieces(sep, so_far).drop_last() =~= texts(r@));
        if sep.is_at(chars[i]) {
            let ghost before = texts(r@);
            r.push(text.substring_char(start, i).to_owned());
            assert(texts(r@) =~= before.push(piece));
            start = i + 1;
            assert(text@.subrange(start as int, i + 1) =~= Seq::empty());
        } else {
            assert(text@.subrange(start as int, i + 1) =~= piece.push(text@[i as int]));
        }
        i += 1;
    }
    assert(text@.take(i as int) =~= text@);
    let ghost before = texts(r@);
    r.push(text.substring_char(start, i).to_owned());
    assert(texts(r@) =~= before.push(text@.subrange(start as int, i as int)));
    r
}

/// The words of a text.
pub fn words(text: &str) -> (r: Vec<String>)
    ensures
        texts(r@) == words_of(text@),
{
    let all = split(text, Separator::White);
    let mut r: Vec<String> = Vec::new();
    let mut i: usize = 0;
    proof {
        reveal(Seq::filter);
        assert(texts(all@).take(0) =~= Seq::empty());
        assert(texts(r@) =~= texts(all@).take(0).filter(filled()));
    }
    while i < all.len()
        invariant
            i <= all@.len(),
            texts(r@) =~= texts(all@).take(i as int).filter(filled()),
        decreases all@.len() - i,
    {
        let ghost before = texts(r@);
        proof {
            reveal(Seq::filter);
            let next = texts(all@).take(i + 1);
            assert(next.drop_last() =~= texts(all@).take(i as int));
            assert(next.last() == all@[i as int]@);
        }
        if !all[i].as_str().is_empty() {
            r.push(all[i].clone());
            assert(texts(r@) =~= before.push(all@[i as int]@));
        }
        i += 1;
    }
    assert(texts(all@).take(i as int) =~= texts(all@));
    r
}

/// A text without white space at either end.
pub fn trim(text: &str) -> (r: &str)
    ensures
        r@ == trimmed(text@),
{
    let chars = characters(text);
    let mut start: usize = 0;
    assert(text@.skip(0) =~= text@);
    while start < chars.len() && is_white(chars[start])
        invariant
            chars@ == text@,
            start <= chars@.len(),
            trimmed_start(text@) == trimmed_start(text@.skip(start as int)),
        decreases chars@.len() - start,
    {
        assert(text@.skip(start as int).drop_first() =~= text@.skip(start + 1));
        start += 1;
    }
    let ghost rest = text@.skip(start as int);
    assert(trimmed_start(text@) == rest);
    let mut end: usize = chars.len();
    assert(text@.subrange(start as int, end as int) =~= rest);
    while start < end && is_white(chars[end - 1])
        invariant
            chars@ == text@,
            start <= end <= chars@.len(),
            trimmed_end(rest) == trimmed_end(text@.subrange(start as int, end as int)),
        decreases end,
    {
        assert(text@.subrange(start as int, end as int).drop_last() =~= text@.subrange(
            start as int,
            end - 1,
        ));
        end -= 1;
    }
    text.substring_char(start, end)
}

/// Whether a text is nothing but white space.
pub fn is_blank(text: &str) -> (r: bool)
    ensures
        r == blank(text@),
{
    let chars = characters(text);
    let mut i: usize = 0;
    while i < chars.len()
        invariant
            chars@ == text@,
            i <= chars@.len(),
            forall|j: int| 0 <= j < i ==> white(#[trigger] text@[j]),
        decreases chars@.len() - i,
    {
        if !is_white(chars[i]) {
            assert(!white(text@[i as int]));
            return false;
        }
        i += 1;
    }
    true
}

/// One text after another.
pub fn concat(a: &str, b: &str) -> (r: String)
    ensures
        r@ == a@ + b@,
{
    let mut r = a.to_owned();
    r.append(b);
    r
}

/// Puts the parts of a text together with `glue` between them.
pub fn join(parts: &Vec<String>, glue: &str) -> (r: String)
    ensures
        r@ == joined(texts(parts@), glue@),
{
    let mut r = String::new();
    let mut i: usize = 0;
    assert(texts(parts@).take(0) =~= Seq::empty());
    while i < parts.len()
        invariant
            i <= parts@.len(),
            r@ == joined(texts(parts@).take(i as int), glue@),
        decreases parts@.len() - i,
    {
        let ghost before = r@;
        let ghost next = texts(parts@).take(i + 1);
        assert(next.drop_last() =~= texts(parts@).take(i as int));
        assert(next.last() == parts@[i as int]@);
        if i > 0 {
            r.append(glue);
        }
        r.append(parts[i].as_str());
        assert(r@ =~= joined(next, glue@)) by {
            if i == 0 {
                assert(before =~= Seq::empty());
            }
        }
        i += 1;
    }
    assert(texts(parts@).take(i as int) =~= texts(parts@));
    r
}

/// A text without separators.
pub open spec fn unbroken(sep: Separator, s: Seq<char>) -> bool {
    forall|i: int| 0 <= i < s.len() ==> !sep.splits_at(#[trigger] s[i])
}

/// Splitting gives at least one piece, and no piece holds a separator.
pub proof fn lemma_pieces_unbroken(sep: Separator, s: Seq<char>)
    ensures
        pieces(sep, s).len() > 0,
        forall|i: int| 0 <= i < pieces(sep, s).len() ==> unbroken(sep, #[trigger] pieces(sep, s)[i]),
    decreases s.len(),
{
    if s.len() > 0 {
        lemma_pieces_unbroken(sep, s.drop_last());
        assert(unbroken(sep, pieces(sep, s.drop_last()).last()));
    }
}

/// A text is split at a separator that stands in it.
pub proof fn lemma_pieces_split(sep: Separator, a: Seq<char>, c: char, b: Seq<char>)
    requires
        sep.splits_at(c),
    ensures
        pieces(sep, a.push(c) + b) == pieces(sep, a) + pieces(sep, b),
    decreases b.len(),
{
    let s = a.push(c) + b;
    if b.len() == 0 {
        assert(s =~= a.push(c));
        assert(s.drop_last() =~= a);
        assert(pieces(sep, s) =~= pieces(sep, a) + pieces(sep, b));
    } else {
        lemma_pieces_split(sep, a, c, b.drop_last());
        lemma_pieces_unbroken(sep, b.drop_last());
        assert(s.drop_last() =~= a.push(c) + b.drop_last());
        assert(pieces(sep, s) =~= pieces(sep, a) + pieces(sep, b));
    }
}

/// A text without separators is one piece.
pub proof fn lemma_pieces_of_unbroken(sep: Separator, s: Seq<char>)
    requires
        unbroken(sep, s),
    ensures
        pieces(sep, s) == seq![s],
    decreases s.len(),
{
    if s.len() == 0 {
        assert(s =~= Seq::empty());
    } else {
        lemma_pieces_of_unbroken(sep, s.drop_last());
        assert(s.drop_last().push(s.last()) =~= s);
        assert(pieces(sep, s) =~= seq![s]);
    }
}

/// Splitting undoes joining, where no part holds a separator.
pub proof fn lemma_pieces_joined(sep: Separator, parts: Seq<Seq<char>>, c: char)
    requires
        sep.splits_at(c),
        parts.len() > 0,
        forall|i: int| 0 <= i < parts.len() ==> unbroken(sep, #[trigger] parts[i]),
    ensures
        pieces(sep, joined(parts, seq![c])) == parts,
    decreases parts.len(),
{
    lemma_pieces_of_unbroken(sep, parts.last());
    if parts.len() == 1 {
        assert(parts =~= seq![parts.last()]);
    } else {
        let before = joined(parts.drop_last(), seq![c]);
        lemma_pieces_joined(sep, parts.drop_last(), c);
        lemma_pieces_split(sep, before, c, parts.last());
        assert(joined(parts, seq![c]) =~= before.push(c) + parts.last());
        assert(parts.drop_last() + seq![parts.last()] =~= parts);
    }
}

/// Where every element passes, a filter changes nothing.
pub proof fn lemma_filter_all<T>(s: Seq<T>, keep: spec_fn(T) -> bool)
    requires
        forall|i: int| 0 <= i < s.len() ==> keep(#[trigger] s[i]),
    ensures
        s.filter(keep) == s,
    decreases s.len(),
{
    reveal(Seq::filter);
    if s.len() > 0 {
        assert forall|i: int| 0 <= i < s.drop_last().len() implies keep(
            #[trigger] s.drop_last()[i],
        ) by {
            assert(s.drop_last()[i] == s[i]);
        }
        lemma_filter_all(s.drop_last(), keep);
        assert(keep(s[s.len() - 1]));
        assert(s.drop_last().push(s.last()) =~= s);
    } else {
        assert(s.filter(keep) =~= s);
    }
}

/// Where no element passes, a filter leaves nothing.
pub proof fn lemma_filter_none<T>(s: Seq<T>, keep: spec_fn(T) -> bool)
    requires
        forall|i: int| 0 <= i < s.len() ==> !keep(#[trigger] s[i]),
    ensures
        s.filter(keep) == Seq::<T>::empty(),
    decreases s.len(),
{
    reveal(Seq::filter);
    if s.len() > 0 {
        assert forall|i: int| 0 <= i < s.drop_last().len() implies !keep(
            #[trigger] s.drop_last()[i],
        ) by {
            assert(s.drop_last()[i] == s[i]);
        }
        lemma_filter_none(s.drop_last(), keep);
        assert(!keep(s[s.len() - 1]));
    }
}

/// Every word is filled and holds no white space.
pub proof fn lemma_words(s: Seq<char>)
    ensures
        forall|i: int|
            0 <= i < words_of(s).len() ==> #[trigger] words_of(s)[i].len() > 0 && unbroken(
                Separator::White,
                words_of(s)[i],
            ),
{
    let all = pieces(Separator::White, s);
    lemma_pieces_unbroken(Separator::White, s);
    assert forall|i: int| 0 <= i < words_of(s).len() implies #[trigger] words_of(s)[i].len() > 0
        && unbroken(Separator::White, words_of(s)[i]) by {
        all.lemma_filter_pred(filled(), i);
        assert(filled()(words_of(s)[i]));
        assert(words_of(s).contains(words_of(s)[i]));
        all.lemma_filter_contains_rev(filled(), words_of(s)[i]);
        let j = all.index_of(words_of(s)[i]);
        assert(all[j] == words_of(s)[i]);
    }
}

/// White space at the start of a text adds no word.
proof fn lemma_words_trimmed_start(s: Seq<char>)
    ensures
        words_of(trimmed_start(s)) == words_of(s),
    decreases s.len(),
{
    if s.len() > 0 && white(s.first()) {
        lemma_words_trimmed_start(s.drop_first());
        let none = Seq::<char>::empty();
        lemma_pieces_split(Separator::White, none, s.first(), s.drop_first());
        assert(s =~= none.push(s.first()) + s.drop_first());
        let a = pieces(Separator::White, none);
        let b = pieces(Separator::White, s.drop_first());
        Seq::filter_distributes_over_add(a, b, filled());
        lemma_filter_none(a, filled());
        assert(a.filter(filled()) + b.filter(filled()) =~= b.filter(filled()));
    }
}

/// White space at the end of a text adds no word.
proof fn lemma_words_trimmed_end(s: Seq<char>)
    ensures
        words_of(trimmed_end(s)) == words_of(s),
    decreases s.len(),
{
    if s.len() > 0 && white(s.last()) {
        lemma_words_trimmed_end(s.drop_last());
        reveal(Seq::filter);
        let p = pieces(Separator::White, s);
        assert(p.drop_last() =~= pieces(Separator::White, s.drop_last()));
        assert(!filled()(p.last()));
    }
}

/// White space around a text adds no word.
pub proof fn lemma_words_trimmed(s: Seq<char>)
    ensures
        words_of(trimmed(s)) == words_of(s),
{
    lemma_words_trimmed_start(s);
    lemma_words_trimmed_end(trimmed_start(s));
}

/// A text of white space has no word, and any other text has one.
pub proof fn lemma_words_blank(s: Seq<char>)
    ensures
        words_of(s).len() == 0 <==> blank(s),
    decreases s.len(),
{
    let sep = Separator::White;
    reveal(Seq::filter);
    if s.len() == 0 {
        lemma_filter_none(pieces(sep, s), filled());
    } else {
        let before = pieces(sep, s.drop_last());
        lemma_words_blank(s.drop_last());
        lemma_pieces_unbroken(sep, s.drop_last());
        assert(blank(s) <==> blank(s.drop_last()) && white(s.last())) by {
            if blank(s) {
                assert forall|i: int| 0 <= i < s.drop_last().len() implies white(
                    #[trigger] s.drop_last()[i],
                ) by {
                    assert(white(s[i]));
                }
                assert(white(s[s.len() - 1]));
            }
            if blank(s.drop_last()) && white(s.last()) {
                assert forall|i: int| 0 <= i < s.len() implies white(#[trigger] s[i]) by {
                    if i < s.len() - 1 {
                        assert(s.drop_last()[i] == s[i]);
                    }
                }
            }
        }
        if white(s.last()) {
            assert(pieces(sep, s).drop_last() =~= before);
            assert(!filled()(pieces(sep, s).last()));
        } else {
            assert(filled()(pieces(sep, s).last()));
        }
    }
}

/// Trimming leaves nothing of a text of white space, and something of any other.
pub proof fn lemma_trimmed_blank(s: Seq<char>)
    ensures
        trimmed(s).len() == 0 <==> blank(s),
{
    lemma_words_trimmed(s);
    lemma_words_blank(s);
    lemma_words_blank(trimmed(s));
    lemma_trimmed_ends(s);
    if trimmed(s).len() > 0 {
        assert(!white(trimmed(s)[0]));
    }
}

proof fn lemma_trimmed_end_keeps_start(s: Seq<char>)
    ensures
        trimmed_end(s).len() <= s.len(),
        trimmed_end(s) == s.take(trimmed_end(s).len() as int),
        trimmed_end(s).len() > 0 ==> !white(trimmed_end(s).last()),
    decreases s.len(),
{
    if s.len() > 0 && white(s.last()) {
        lemma_trimmed_end_keeps_start(s.drop_last());
        assert(s.drop_last().take(trimmed_end(s).len() as int) =~= s.take(
            trimmed_end(s).len() as int,
        ));
    } else {
        assert(s.take(s.len() as int) =~= s);
    }
}

proof fn lemma_trimmed_start_first(s: Seq<char>)
    ensures
        trimmed_start(s).len() > 0 ==> !white(trimmed_start(s).first()),
    decreases s.len(),
{
    if s.len() > 0 && white(s.first()) {
        lemma_trimmed_start_first(s.drop_first());
    }
}

/// A trimmed text has no white space at either end.
pub proof fn lemma_trimmed_ends(s: Seq<char>)
    ensures
        trimmed(s).len() > 0 ==> !white(trimmed(s).first()) && !white(trimmed(s).last()),
{
    lemma_trimmed_start_first(s);
    lemma_trimmed_end_keeps_start(trimmed_start(s));
}

/// A text without white space at either end is left as it is.
pub proof fn lemma_trimmed_same(s: Seq<char>)
    requires
        s.len() > 0 ==> !white(s.first()) && !white(s.last()),
    ensures
        trimmed(s) == s,
{
}

/// A separator splits at the character that it is, and the one for white space at white space.
pub proof fn law_separator(c: char, d: char)
    ensures
        Separator::Char(d).splits_at(c) <==> c == d,
        Separator::White.splits_at(c) <==> white(c),
{
}

/// What the texts in a vector hold is held one by one.
pub proof fn law_texts(v: Seq<String>)
    ensures
        texts(v).len() == v.len(),
        forall|i: int| 0 <= i < v.len() ==> #[trigger] texts(v)[i] == v[i]@,
{
}

/// A text without separators is one piece, and a separator parts what stands before it from what
/// stands after it.
pub proof fn law_split(sep: Separator, a: Seq<char>, c: char, b: Seq<char>)
    ensures
        (forall|i: int| 0 <= i < a.len() ==> !sep.splits_at(#[trigger] a[i])) ==> pieces(sep, a)
            == seq![a],
        sep.splits_at(c) ==> pieces(sep, a.push(c) + b) == pieces(sep, a) + pieces(sep, b),
{
    if forall|i: int| 0 <= i < a.len() ==> !sep.splits_at(#[trigger] a[i]) {
        lemma_pieces_of_unbroken(sep, a);
    }
    if sep.splits_at(c) {
        lemma_pieces_split(sep, a, c, b);
    }
}

/// A text with something in it and no white space is one word, the empty text has none, and white
/// space parts the words before it from the words after it.
pub proof fn law_words(a: Seq<char>, c: char, b: Seq<char>)
    ensures
        words_of(Seq::empty()) == Seq::<Seq<char>>::empty(),
        a.len() > 0 && (forall|i: int| 0 <= i < a.len() ==> !white(#[trigger] a[i])) ==> words_of(a)
            == seq![a],
        white(c) ==> words_of(a.push(c) + b) == words_of(a) + words_of(b),
{
    let sep = Separator::White;
    let none = Seq::<char>::empty();
    lemma_pieces_of_unbroken(sep, none);
    lemma_filter_none(pieces(sep, none), filled());
    if a.len() > 0 && (forall|i: int| 0 <= i < a.len() ==> !white(#[trigger] a[i])) {
        lemma_pieces_of_unbroken(sep, a);
        lemma_filter_all(seq![a], filled());
    }
    if white(c) {
        lemma_pieces_split(sep, a, c, b);
        Seq::filter_distributes_over_add(pieces(sep, a), pieces(sep, b), filled());
    }
}

/// A text is white space where each part of it is.
pub proof fn law_blank(a: Seq<char>, c: char)
    ensures
        blank(Seq::empty()),
        blank(a.push(c)) <==> blank(a) && white(c),
{
    let s = a.push(c);
    if blank(s) {
        assert forall|i: int| 0 <= i < a.len() implies white(#[trigger] a[i]) by {
            assert(s[i] == a[i]);
        }
        assert(white(s[a.len() as int]));
    }
    if blank(a) && white(c) {
        assert forall|i: int| 0 <= i < s.len() implies white(#[trigger] s[i]) by {
            if i < a.len() {
                assert(a[i] == s[i]);
            }
        }
    }
}

/// Trimming takes away the white space before and after a text, and nothing else.
pub proof fn law_trimmed(before: Seq<char>, s: Seq<char>, after: Seq<char>)
    requires
        forall|i: int| 0 <= i < before.len() ==> white(#[trigger] before[i]),
        forall|i: int| 0 <= i < after.len() ==> white(#[trigger] after[i]),
        s.len() > 0 ==> !white(s.first()) && !white(s.last()),
    ensures
        trimmed(before + s + after) == s,
{
    if s.len() == 0 {
        let all = before + s + after;
        assert forall|i: int| 0 <= i < all.len() implies white(#[trigger] all[i]) by {
            if i < before.len() {
                assert(all[i] == before[i]);
            } else {
                assert(all[i] == after[i - before.len()]);
            }
        }
        lemma_trimmed_blank(all);
        assert(trimmed(all) =~= s);
    } else {
        lemma_white_start(before, s + after);
        assert(before + (s + after) =~= before + s + after);
        assert((s + after).first() == s.first());
        lemma_white_end(s, after);
    }
}

proof fn lemma_white_start(before: Seq<char>, s: Seq<char>)
    requires
        forall|i: int| 0 <= i < before.len() ==> white(#[trigger] before[i]),
        s.len() > 0,
        !white(s.first()),
    ensures
        trimmed_start(before + s) == s,
    decreases before.len(),
{
    if before.len() == 0 {
        assert(before + s =~= s);
    } else {
        assert((before + s).first() == before[0]);
        assert((before + s).drop_first() =~= before.drop_first() + s);
        lemma_white_start(before.drop_first(), s);
    }
}

proof fn lemma_white_end(s: Seq<char>, after: Seq<char>)
    requires
        forall|i: int| 0 <= i < after.len() ==> white(#[trigger] after[i]),
        s.len() > 0,
        !white(s.last()),
    ensures
        trimmed_end(s + after) == s,
    decreases after.len(),
{
    if after.len() == 0 {
        assert(s + after =~= s);
    } else {
        assert((s + after).last() == after[after.len() - 1]);
        assert((s + after).drop_last() =~= s + after.drop_last());
        lemma_white_end(s, after.drop_last());
    }
}

/// Joining puts glue between parts, and nowhere else.
pub proof fn law_joined(a: Seq<Seq<char>>, s: Seq<char>, glue: Seq<char>)
    ensures
        joined(Seq::empty(), glue) == Seq::<char>::empty(),
        joined(seq![s], glue) == s,
        a.len() > 0 ==> joined(a.push(s), glue) == joined(a, glue) + glue + s,
{
    if a.len() > 0 {
        assert(a.push(s).drop_last() =~= a);
        assert(joined(a.push(s), glue) =~= joined(a, glue) + glue + s);
    }
}

} // verus!
