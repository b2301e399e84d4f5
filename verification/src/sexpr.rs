use vstd::prelude::*;

verus! {

/// A node of an S-expression tree: an atom (a bare word or the contents of a
/// quoted string) or a parenthesised list.
#[derive(Debug)]
pub enum SExpr {
    Atom(String),
    List(Vec<SExpr>),
}

/// The mathematical model of an [`SExpr`].
pub enum Tree {
    Atom(Seq<char>),
    List(Seq<Tree>),
}

impl SExpr {
    pub open spec fn tree(&self) -> Tree
        decreases self,
    {
        match self {
            SExpr::Atom(s) => Tree::Atom(s@),
            SExpr::List(v) => Tree::List(
                Seq::new(
                    v@.len(),
                    |i: int|
                        if 0 <= i < v@.len() {
                            v@[i].tree()
                        } else {
                            Tree::List(Seq::empty())
                        },
                ),
            ),
        }
    }
}

impl View for SExpr {
    type V = Tree;

    open spec fn view(&self) -> Tree {
        self.tree()
    }
}

/// A list whose first item is an atom has that atom as its tag; every other
/// node has the empty tag.
pub open spec fn tree_tag(t: Tree) -> Seq<char> {
    match t {
        Tree::List(items) => if items.len() > 0 {
            match items[0] {
                Tree::Atom(s) => s,
                Tree::List(_) => Seq::empty(),
            }
        } else {
            Seq::empty()
        },
        Tree::Atom(_) => Seq::empty(),
    }
}

/// A list without items.
pub open spec fn is_empty_list(t: Tree) -> bool {
    t matches Tree::List(items) && items.len() == 0
}

/// The items of a list after the first one (the tag position); an atom has none.
pub open spec fn tree_children(t: Tree) -> Seq<Tree> {
    match t {
        Tree::List(items) => items.drop_first(),
        Tree::Atom(_) => Seq::empty(),
    }
}

pub open spec fn tree_atom(t: Tree) -> Option<Seq<char>> {
    match t {
        Tree::Atom(s) => Some(s),
        Tree::List(_) => None,
    }
}

/// The texts of the atoms among `items`, in order.
pub open spec fn atom_texts(items: Seq<Tree>) -> Seq<Seq<char>>
    decreases items.len(),
{
    if items.len() == 0 {
        Seq::empty()
    } else {
        atom_texts(items.drop_last()) + match items.last() {
            Tree::Atom(s) => seq![s],
            Tree::List(_) => Seq::empty(),
        }
    }
}

/// The lists among `items` whose tag is `tag`, in order.
pub open spec fn tagged(items: Seq<Tree>, tag: Seq<char>) -> Seq<Tree>
    decreases items.len(),
{
    if items.len() == 0 {
        Seq::empty()
    } else {
        tagged(items.drop_last(), tag) + if items.last() is List && tree_tag(items.last()) == tag {
            seq![items.last()]
        } else {
            Seq::empty()
        }
    }
}

pub open spec fn views(s: Seq<&SExpr>) -> Seq<Tree> {
    s.map_values(|e: &SExpr| e@)
}

pub open spec fn slice_views(s: Seq<SExpr>) -> Seq<Tree> {
    s.map_values(|e: SExpr| e@)
}

pub proof fn lemma_list_items(v: Vec<SExpr>)
    ensures
        SExpr::List(v)@ == Tree::List(slice_views(v@)),
{
    assert(SExpr::List(v)@->List_0 =~= slice_views(v@));
}

pub proof fn lemma_atom_texts_prefix(items: Seq<Tree>, i: int)
    requires
        0 <= i < items.len(),
    ensures
        atom_texts(items.take(i + 1)) == atom_texts(items.take(i)) + match items[i] {
            Tree::Atom(s) => seq![s],
            Tree::List(_) => Seq::<Seq<char>>::empty(),
        },
{
    assert(items.take(i + 1).drop_last() =~= items.take(i));
}

pub proof fn lemma_tagged_prefix(items: Seq<Tree>, tag: Seq<char>, i: int)
    requires
        0 <= i < items.len(),
    ensures
        tagged(items.take(i + 1), tag) == tagged(items.take(i), tag) + if items[i] is List
            && tree_tag(items[i]) == tag {
            seq![items[i]]
        } else {
            Seq::<Tree>::empty()
        },
{
    assert(items.take(i + 1).drop_last() =~= items.take(i));
}

impl SExpr {
    /// The tag of a list: its first item when that item is an atom.
    pub fn tag(&self) -> (r: &str)
        ensures
            r@ == tree_tag(self@),
    {
        proof {
            reveal_strlit("");
        }
        match self {
            SExpr::List(items) => {
                proof {
                    lemma_list_items(*items);
                }
                if items.len() > 0 {
                    match &items[0] {
                        SExpr::Atom(s) => s.as_str(),
                        SExpr::List(_) => "",
                    }
                } else {
                    ""
                }
            },
            SExpr::Atom(_) => "",
        }
    }

    /// The items of a list after its tag position.
    pub fn children(&self) -> (r: &[SExpr])
        requires
            !is_empty_list(self@),
        ensures
            slice_views(r@) == tree_children(self@),
    {
        match self {
            SExpr::List(items) => {
                proof {
                    lemma_list_items(*items);
                }
                let (_, rest) = items.as_slice().split_at(1);
                assert(slice_views(rest@) =~= tree_children(self@));
                rest
            },
            SExpr::Atom(_) => {
                let empty: &[SExpr] = &[];
                assert(slice_views(empty@) =~= Seq::empty());
                empty
            },
        }
    }

    pub fn as_atom(&self) -> (r: Option<&str>)
        ensures
            match r {
                Some(s) => tree_atom(self@) == Some(s@),
                None => tree_atom(self@) is None,
            },
    {
        match self {
            SExpr::Atom(s) => Some(s.as_str()),
            SExpr::List(_) => None,
        }
    }

    /// All immediate atom children (nested lists are skipped).
    pub fn atom_children(&self) -> (r: Vec<&str>)
        requires
            !is_empty_list(self@),
        ensures
            r@.map_values(|s: &str| s@) == atom_texts(tree_children(self@)),
    {
        let mut out: Vec<&str> = Vec::new();
        match self {
            SExpr::List(items) => {
                proof {
                    lemma_list_items(*items);
                }
                let ghost kids = tree_children(self@);
                let mut i: usize = 1;
                while i < items.len()
                    invariant
                        1 <= i <= items.len(),
                        kids == slice_views(items@).drop_first(),
                        out@.map_values(|s: &str| s@) == atom_texts(kids.take(i - 1)),
                    decreases items.len() - i,
                {
                    proof {
                        lemma_atom_texts_prefix(kids, i - 1);
                        assert(kids[i - 1] == items@[i as int]@);
                    }
                    match &items[i] {
                        SExpr::Atom(s) => {
                            out.push(s.as_str());
                        },
                        SExpr::List(_) => {},
                    }
                    assert(out@.map_values(|s: &str| s@) =~= atom_texts(kids.take(i as int)));
                    i = i + 1;
                }
                assert(kids.take(kids.len() as int) =~= kids);
            },
            SExpr::Atom(_) => {
                assert(out@.map_values(|s: &str| s@) =~= Seq::empty());
            },
        }
        out
    }

    /// All immediate list children with the given tag.
    pub fn find_all<'a>(&'a self, tag: &str) -> (r: Vec<&'a SExpr>)
        requires
            !is_empty_list(self@),
        ensures
            views(r@) == tagged(tree_children(self@), tag@),
    {
        let mut out: Vec<&'a SExpr> = Vec::new();
        match self {
            SExpr::List(items) => {
                proof {
                    lemma_list_items(*items);
                }
                let ghost kids = tree_children(self@);
                let mut i: usize = 1;
                while i < items.len()
                    invariant
                        1 <= i <= items.len(),
                        kids == slice_views(items@).drop_first(),
                        views(out@) == tagged(kids.take(i - 1), tag@),
                    decreases items.len() - i,
                {
                    proof {
                        lemma_tagged_prefix(kids, tag@, i - 1);
                        assert(kids[i - 1] == items@[i as int]@);
                    }
                    let e = &items[i];
                    if let SExpr::List(_) = e {
                        if str_eq(e.tag(), tag) {
                            out.push(e);
                        }
                    }
                    assert(views(out@) =~= tagged(kids.take(i as int), tag@));
                    i = i + 1;
                }
                assert(kids.take(kids.len() as int) =~= kids);
            },
            SExpr::Atom(_) => {
                assert(views(out@) =~= Seq::empty());
            },
        }
        out
    }

    /// The first immediate list child with the given tag.
    pub fn find_first(&self, tag: &str) -> (r: Option<&SExpr>)
        requires
            !is_empty_list(self@),
        ensures
            match r {
                Some(e) => tagged(tree_children(self@), tag@).len() > 0 && e@ == tagged(
                    tree_children(self@),
                    tag@,
                )[0],
                None => tagged(tree_children(self@), tag@).len() == 0,
            },
    {
        let all = self.find_all(tag);
        if all.len() > 0 {
            Some(all[0])
        } else {
            None
        }
    }
}

/// Whether two strings hold the same characters.
pub fn str_eq(a: &str, b: &str) -> (r: bool)
    ensures
        r == (a@ == b@),
{
    let n = a.unicode_len();
    if n != b.unicode_len() {
        return false;
    }
    let mut i: usize = 0;
    while i < n
        invariant
            n == a@.len() == b@.len(),
            0 <= i <= n,
            forall|j: int| 0 <= j < i ==> a@[j] == b@[j],
        decreases n - i,
    {
        if a.get_char(i) != b.get_char(i) {
            return false;
        }
        i = i + 1;
    }
    assert(a@ =~= b@);
    true
}

} // verus!
