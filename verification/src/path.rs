//! Paths as the parts they are made of.
use vstd::prelude::*;
use vstd::utf8::*;

use crate::order::{
    byte_order, law_first_difference_decides, law_prefix_comes_first, lemma_lex_strict,
    lemma_same_bytes_same_text, lex, lex_order, place_bytes, placed, strict_order, Place, Ranked,
};

verus! {

/// The folder beside the tagged files that holds what is known of them.
pub const STORE_DIR: &'static str = ".categorax";

/// The file in that folder.
pub const STORE_FILE: &'static str = "tags.json";

/// One name in a path.
#[derive(Debug)]
pub enum Name {
    /// A name that is a text.
    Text(String),
    /// The bytes of a name that is no text.
    Raw(Vec<u8>),
}

impl View for Name {
    type V = Seq<u8>;

    /// The bytes of the name.
    open spec fn view(&self) -> Seq<u8> {
        match self {
            Name::Text(s) => encode_utf8(s@),
            Name::Raw(b) => b@,
        }
    }
}

impl Name {
    /// The bytes of the name.
    pub fn bytes(&self) -> (r: &[u8])
        ensures
            r@ == self@,
    {
        match self {
            Name::Text(s) => s.as_str().as_bytes(),
            Name::Raw(b) => b.as_slice(),
        }
    }

    fn duplicate(&self) -> (r: Name)
        ensures
            r@ == self@,
    {
        match self {
            Name::Text(s) => Name::Text(s.clone()),
            Name::Raw(b) => {
                let c = b.clone();
                assert(c@ =~= b@);
                Name::Raw(c)
            },
        }
    }
}

/// One part of a path.
#[derive(Debug)]
pub enum PathPart {
    /// What names a drive or a share, with a number for the form it has.
    Prefix(u8, Name),
    /// The root.
    Root,
    /// The current folder.
    Current,
    /// The folder above.
    Parent,
    /// A file or folder by its name.
    Normal(Name),
}

/// What a part of a path is: its place among the kinds of parts, and the bytes of its name.
pub struct PartView {
    pub rank: int,
    pub name: Seq<u8>,
}

/// The place of `PathPart::Root`; prefixes come before it by their number.
pub open spec fn root_rank() -> int {
    256
}

/// The place of `PathPart::Normal`, the last.
pub open spec fn normal_rank() -> int {
    259
}

impl View for PathPart {
    type V = PartView;

    open spec fn view(&self) -> PartView {
        match self {
            PathPart::Prefix(kind, name) => PartView { rank: *kind as int, name: name@ },
            PathPart::Root => PartView { rank: root_rank(), name: Seq::empty() },
            PathPart::Current => PartView { rank: 257, name: Seq::empty() },
            PathPart::Parent => PartView { rank: 258, name: Seq::empty() },
            PathPart::Normal(name) => PartView { rank: normal_rank(), name: name@ },
        }
    }
}

/// A file or folder with a name that is a text.
pub open spec fn normal(name: Seq<char>) -> PartView {
    PartView { rank: normal_rank(), name: encode_utf8(name) }
}

/// Parts by kind, then by the bytes of their names.
pub open spec fn part_order() -> spec_fn(PartView, PartView) -> bool {
    |a: PartView, b: PartView|
        a.rank < b.rank || (a.rank == b.rank && lex(byte_order(), a.name, b.name))
}

/// Paths part by part.
pub open spec fn path_order() -> spec_fn(Seq<PartView>, Seq<PartView>) -> bool {
    lex_order(part_order())
}

proof fn lemma_part_order_strict()
    ensures
        strict_order(part_order()),
{
    lemma_lex_strict(byte_order());
    let bytes = lex_order(byte_order());
    let lt = part_order();
    assert forall|a: PartView| !#[trigger] lt(a, a) by {
        assert(!bytes(a.name, a.name));
    }
    assert forall|a: PartView, b: PartView, c: PartView| #[trigger] lt(a, b) && #[trigger] lt(
        b,
        c,
    ) implies lt(a, c) by {
        if a.rank == b.rank && b.rank == c.rank {
            assert(bytes(a.name, b.name));
            assert(bytes(b.name, c.name));
        }
    }
    assert forall|a: PartView, b: PartView| a == b || #[trigger] lt(a, b) || lt(b, a) by {
        assert(bytes(a.name, b.name) == lex(byte_order(), a.name, b.name));
        assert(bytes(b.name, a.name) == lex(byte_order(), b.name, a.name));
    }
}

/// The order on paths is strict: no two different paths are left unordered.
pub proof fn lemma_path_order_strict()
    ensures
        strict_order(path_order()),
{
    lemma_part_order_strict();
    lemma_lex_strict(part_order());
}

impl PathPart {
    fn rank(&self) -> (r: u16)
        ensures
            r == self@.rank,
    {
        match self {
            PathPart::Prefix(kind, _) => *kind as u16,
            PathPart::Root => 256,
            PathPart::Current => 257,
            PathPart::Parent => 258,
            PathPart::Normal(_) => 259,
        }
    }

    fn name_bytes(&self) -> (r: &[u8])
        ensures
            r@ == self@.name,
    {
        match self {
            PathPart::Prefix(_, name) => name.bytes(),
            PathPart::Normal(name) => name.bytes(),
            PathPart::Root | PathPart::Current | PathPart::Parent => {
                let none: &[u8] = &[];
                assert(none@ =~= Seq::empty());
                none
            },
        }
    }

    fn place(&self, other: &PathPart) -> (p: Place)
        ensures
            placed(p, self@, other@, part_order()),
    {
        let a = self.rank();
        let b = other.rank();
        if a < b {
            Place::Before
        } else if b < a {
            Place::After
        } else {
            place_bytes(self.name_bytes(), other.name_bytes())
        }
    }

    fn duplicate(&self) -> (r: PathPart)
        ensures
            r@ == self@,
    {
        match self {
            PathPart::Prefix(kind, name) => PathPart::Prefix(*kind, name.duplicate()),
            PathPart::Root => PathPart::Root,
            PathPart::Current => PathPart::Current,
            PathPart::Parent => PathPart::Parent,
            PathPart::Normal(name) => PathPart::Normal(name.duplicate()),
        }
    }

    /// Whether the part is a file or folder of the given name.
    fn is_named(&self, name: &str) -> (r: bool)
        ensures
            r == (self@ == normal(name@)),
    {
        match self {
            PathPart::Normal(own) => match place_bytes(own.bytes(), name.as_bytes()) {
                Place::Same => true,
                Place::Before | Place::After => {
                    proof {
                        lemma_lex_strict(byte_order());
                    }
                    false
                },
            },
            _ => false,
        }
    }
}

/// A path, from the outermost part to the innermost.
#[derive(Debug)]
pub struct PathName {
    pub parts: Vec<PathPart>,
}

impl View for PathName {
    type V = Seq<PartView>;

    open spec fn view(&self) -> Seq<PartView> {
        Seq::new(self.parts@.len(), |i: int| self.parts@[i]@)
    }
}

impl Ranked for PathName {
    open spec fn order() -> spec_fn(Seq<PartView>, Seq<PartView>) -> bool {
        path_order()
    }

    proof fn lemma_order_strict() {
        lemma_path_order_strict();
    }

    fn place(&self, other: &Self) -> (p: Place) {
        let mut i: usize = 0;
        let ghost a = self@;
        let ghost b = other@;
        assert(a.skip(0) =~= a);
        assert(b.skip(0) =~= b);
        while i < self.parts.len() && i < other.parts.len()
            invariant
                a == self@,
                b == other@,
                i <= a.len(),
                i <= b.len(),
                a.take(i as int) =~= b.take(i as int),
                lex(part_order(), a, b) == lex(part_order(), a.skip(i as int), b.skip(i as int)),
                lex(part_order(), b, a) == lex(part_order(), b.skip(i as int), a.skip(i as int)),
            decreases a.len() - i,
        {
            assert(a.skip(i as int)[0] == self.parts@[i as int]@);
            assert(b.skip(i as int)[0] == other.parts@[i as int]@);
            proof {
                lemma_part_order_strict();
            }
            match self.parts[i].place(&other.parts[i]) {
                Place::Before => {
                    return Place::Before;
                },
                Place::After => {
                    return Place::After;
                },
                Place::Same => {},
            }
            assert(a.skip(i as int).drop_first() =~= a.skip(i + 1));
            assert(b.skip(i as int).drop_first() =~= b.skip(i + 1));
            assert(a.take(i + 1) =~= a.take(i as int).push(a[i as int]));
            assert(b.take(i + 1) =~= b.take(i as int).push(b[i as int]));
            i += 1;
        }
        if i < other.parts.len() {
            Place::Before
        } else if i < self.parts.len() {
            Place::After
        } else {
            assert(a =~= a.take(i as int));
            assert(b =~= b.take(i as int));
            Place::Same
        }
    }

    fn duplicate(&self) -> (r: Self) {
        let r = self.front(self.parts.len());
        assert(self@.take(self.parts@.len() as int) =~= self@);
        r
    }
}

/// The folder that a path lies in. A root, a prefix and the empty path lie in none.
pub open spec fn folder_of(p: Seq<PartView>) -> Option<Seq<PartView>> {
    if p.len() > 0 && p.last().rank > root_rank() {
        Some(p.drop_last())
    } else {
        None
    }
}

/// Where the store for the things in a folder lies.
pub open spec fn store_in(folder: Seq<PartView>) -> Seq<PartView> {
    folder.push(normal(STORE_DIR@)).push(normal(STORE_FILE@))
}

/// The folder whose things a store tells of, where a path is one of a store.
pub open spec fn store_base(p: Seq<PartView>) -> Option<Seq<PartView>> {
    if p.len() >= 2 && p == store_in(p.take(p.len() - 2)) {
        Some(p.take(p.len() - 2))
    } else {
        None
    }
}

impl PathName {
    /// The name of what the path leads to, where it has one that is a text.
    pub open spec fn own_name(&self) -> Option<Seq<char>> {
        if self.parts@.len() > 0 {
            match self.parts@.last() {
                PathPart::Normal(Name::Text(name)) => Some(name@),
                _ => None,
            }
        } else {
            None
        }
    }

    /// The first `n` parts.
    fn front(&self, n: usize) -> (r: PathName)
        requires
            n <= self.parts@.len(),
        ensures
            r@ == self@.take(n as int),
    {
        let mut parts: Vec<PathPart> = Vec::new();
        let mut i: usize = 0;
        while i < n
            invariant
                i <= n <= self.parts@.len(),
                parts@.len() == i,
                forall|j: int| 0 <= j < i ==> (#[trigger] parts@[j])@ == self.parts@[j]@,
            decreases n - i,
        {
            parts.push(self.parts[i].duplicate());
            i += 1;
        }
        let r = PathName { parts };
        assert(r@ =~= self@.take(n as int));
        r
    }

    /// The folder that the path lies in.
    pub fn folder(&self) -> (r: Option<PathName>)
        ensures
            r is Some <==> folder_of(self@) is Some,
            r matches Some(p) ==> Some(p@) == folder_of(self@),
    {
        let n = self.parts.len();
        if n > 0 && self.parts[n - 1].rank() > 256 {
            let r = self.front(n - 1);
            assert(self@.take(n - 1) =~= self@.drop_last());
            Some(r)
        } else {
            None
        }
    }

    /// The name of what the path leads to, where it has one that is a text.
    pub fn file_name(&self) -> (r: Option<&String>)
        ensures
            r is Some <==> self.own_name() is Some,
            r matches Some(name) ==> Some(name@) == self.own_name(),
    {
        let n = self.parts.len();
        if n > 0 {
            match &self.parts[n - 1] {
                PathPart::Normal(Name::Text(name)) => Some(name),
                _ => None,
            }
        } else {
            None
        }
    }

    /// The store for the things in the folder that the path leads to.
    pub fn store(&self) -> (r: PathName)
        ensures
            r@ == store_in(self@),
    {
        let mut r = self.duplicate();
        let ghost before = r@;
        r.parts.push(PathPart::Normal(Name::Text(STORE_DIR.to_owned())));
        assert(r@ =~= before.push(normal(STORE_DIR@)));
        r.parts.push(PathPart::Normal(Name::Text(STORE_FILE.to_owned())));
        assert(r@ =~= store_in(self@));
        r
    }

    /// The folder whose things a store tells of, where the path is one of a store.
    pub fn store_folder(&self) -> (r: Option<PathName>)
        ensures
            r is Some <==> store_base(self@) is Some,
            r matches Some(p) ==> Some(p@) == store_base(self@),
    {
        if self.is_store() {
            Some(self.front(self.parts.len() - 2))
        } else {
            None
        }
    }

    /// Whether the path is one of a store.
    pub fn is_store(&self) -> (r: bool)
        ensures
            r == store_base(self@) is Some,
    {
        let n = self.parts.len();
        if n < 2 {
            return false;
        }
        let r = self.parts[n - 1].is_named(STORE_FILE) && self.parts[n - 2].is_named(STORE_DIR);
        proof {
            let p = self@;
            assert(p[n - 1] == self.parts@[n - 1]@);
            assert(p[n - 2] == self.parts@[n - 2]@);
            let q = store_in(p.take(n - 2));
            if r {
                assert(p =~= q);
            } else if p == q {
                assert(q[n - 1] == normal(STORE_FILE@));
                assert(q[n - 2] == normal(STORE_DIR@));
            }
        }
        r
    }
}

/// Where the thing with a name in a folder lies.
pub fn thing_in(folder: &PathName, name: &str) -> (r: PathName)
    ensures
        r@ == folder@.push(normal(name@)),
{
    let mut r = folder.duplicate();
    r.parts.push(PathPart::Normal(Name::Text(name.to_owned())));
    assert(r@ =~= folder@.push(normal(name@)));
    r
}

/// The store in a folder is recognised as a store, and as the one of that folder.
pub proof fn law_store_recognised(folder: Seq<PartView>)
    ensures
        store_base(store_in(folder)) == Some(folder),
{
    assert(store_in(folder).take(folder.len() as int) =~= folder);
}

/// Different folders have different stores.
pub proof fn law_stores_differ(a: Seq<PartView>, b: Seq<PartView>)
    requires
        store_in(a) == store_in(b),
    ensures
        a == b,
{
    law_store_recognised(a);
    law_store_recognised(b);
}

/// How a path that was typed becomes an absolute one.
#[derive(Debug, Clone, Copy, PartialEq, Eq, Structural)]
pub enum Approach {
    /// By asking the file system for the one form that every path to the same thing shares.
    Canonical,
    /// It is absolute as it stands.
    AsGiven,
    /// By taking it from the current folder.
    FromCurrentFolder,
}

/// Decides how a path becomes an absolute one.
pub fn absolute_path(exists: bool, is_absolute: bool) -> (r: Approach)
    ensures
        r == (if exists {
            Approach::Canonical
        } else if is_absolute {
            Approach::AsGiven
        } else {
            Approach::FromCurrentFolder
        }),
{
    if exists {
        Approach::Canonical
    } else if is_absolute {
        Approach::AsGiven
    } else {
        Approach::FromCurrentFolder
    }
}

/// A path is its parts, one by one.
pub proof fn law_path_parts(path: PathName)
    ensures
        path@.len() == path.parts@.len(),
        forall|i: int| 0 <= i < path.parts@.len() ==> #[trigger] path@[i] == path.parts@[i]@,
{
}

/// What a name stands for are its bytes, and a part that is a name is the same as another exactly
/// where the bytes are.
pub proof fn law_names_are_bytes(a: Name, b: Name, text: String, raw: Vec<u8>)
    ensures
        Name::Text(text)@ == encode_utf8(text@),
        Name::Raw(raw)@ == raw@,
        PathPart::Normal(a)@ == PathPart::Normal(b)@ <==> a@ == b@,
        PathPart::Normal(Name::Text(text))@ == normal(text@),
{
}

/// Two texts name the same part only where they are the same text.
pub proof fn law_names_differ(a: Seq<char>, b: Seq<char>)
    requires
        normal(a) == normal(b),
    ensures
        a == b,
{
    lemma_same_bytes_same_text(a, b);
}

/// Prefixes come first, by their number; then the root, the current folder, the folder above, and
/// names; parts of one kind go by the bytes of their names.
pub proof fn law_parts_in_order(a: Name, b: Name, m: u8, n: u8)
    ensures
        m < n ==> part_order()(PathPart::Prefix(m, a)@, PathPart::Prefix(n, b)@),
        part_order()(PathPart::Prefix(n, a)@, PathPart::Root@),
        part_order()(PathPart::Root@, PathPart::Current@),
        part_order()(PathPart::Current@, PathPart::Parent@),
        part_order()(PathPart::Parent@, PathPart::Normal(a)@),
        part_order()(PathPart::Normal(a)@, PathPart::Normal(b)@) <==> lex_order(byte_order())(
            a@,
            b@,
        ),
        part_order()(PathPart::Prefix(n, a)@, PathPart::Prefix(n, b)@) <==> lex_order(byte_order())(
            a@,
            b@,
        ),
        strict_order(part_order()),
{
    lemma_part_order_strict();
}

/// Paths go by the first part in which they differ, and a folder comes before what lies in it.
pub proof fn law_paths_in_order(
    same: Seq<PartView>,
    x: PartView,
    a: Seq<PartView>,
    y: PartView,
    b: Seq<PartView>,
)
    ensures
        x != y ==> (path_order()(same + seq![x] + a, same + seq![y] + b) <==> part_order()(x, y)),
        path_order()(same, same + seq![x] + a),
{
    if x != y {
        law_first_difference_decides(part_order(), same, x, a, y, b);
    }
    law_prefix_comes_first(part_order(), same, seq![x] + a);
    assert(same + (seq![x] + a) =~= same + seq![x] + a);
}

/// A path that ends in a name, or in the current folder or the one above, lies in the folder that
/// is all of it but its last part. A path that ends in a root or a prefix lies in none, and neither
/// does the empty path.
pub proof fn law_folder(path: PathName)
    ensures
        path.parts@.len() == 0 ==> folder_of(path@) is None,
        path.parts@.len() > 0 ==> match path.parts@.last() {
            PathPart::Normal(_) | PathPart::Current | PathPart::Parent => folder_of(path@) == Some(
                path@.drop_last(),
            ),
            PathPart::Root | PathPart::Prefix(_, _) => folder_of(path@) is None,
        },
{
    if path.parts@.len() > 0 {
        assert(path@.last() == path.parts@.last()@);
    }
}

/// The name of a path is its last part, where that is a name that is a text.
pub proof fn law_own_name(path: PathName, name: String)
    ensures
        path.parts@.len() > 0 && path.parts@.last() == PathPart::Normal(Name::Text(name))
            ==> path.own_name() == Some(name@),
        path.own_name() is Some ==> path.parts@.len() > 0 && (path.parts@.last() matches
            PathPart::Normal(Name::Text(own)) && path.own_name() == Some(own@)),
{
}

/// The store of a folder is the file `tags.json` in the folder `.categorax` in it.
pub proof fn law_store_in(folder: Seq<PartView>)
    ensures
        store_in(folder).len() == folder.len() + 2,
        forall|i: int| 0 <= i < folder.len() ==> #[trigger] store_in(folder)[i] == folder[i],
        store_in(folder)[folder.len() as int] == normal(".categorax"@),
        store_in(folder)[folder.len() as int + 1] == normal("tags.json"@),
{
}

/// A path is one of a store exactly where it is that of the store of some folder, however deep.
pub proof fn law_stores_at_any_depth(path: Seq<PartView>, folder: Seq<PartView>)
    ensures
        path == store_in(folder) ==> store_base(path) == Some(folder),
        store_base(path) matches Some(base) ==> path == store_in(base),
{
    law_store_recognised(folder);
}

} // verus!
