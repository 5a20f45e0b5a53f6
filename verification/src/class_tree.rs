//! The inheritance tree rooted at `"Object"`, derived from the class table
//! for diagnostic output: siblings in lexicographic order, rendered with
//! two-space indentation per level.

use vstd::prelude::*;
use crate::ast::{object_name, view_class_names, ClassName};
use crate::class_table::{
    contains_name, has_class, name_in, rank_of, sorted_names, super_name, ClassTable,
};
use vstd::string::StringExecFns;

verus! {

/// A rooted inheritance tree: a class and the trees of its direct subtypes.
#[derive(Debug)]
pub struct ClassTree {
    pub name: ClassName,
    pub children: Vec<ClassTree>,
}

/// The model of an inheritance tree.
pub struct SpecTree {
    pub name: Seq<char>,
    pub children: Seq<SpecTree>,
}

pub open spec fn view_trees(ts: Seq<ClassTree>) -> Seq<SpecTree>
    decreases ts,
{
    if ts.len() == 0 {
        Seq::empty()
    } else {
        seq![view_tree(ts[0])] + view_trees(ts.subrange(1, ts.len() as int))
    }
}

pub open spec fn view_tree(t: ClassTree) -> SpecTree
    decreases t,
{
    SpecTree { name: t.name@, children: view_trees(t.children@) }
}

impl View for ClassTree {
    type V = SpecTree;

    open spec fn view(&self) -> SpecTree {
        view_tree(*self)
    }
}

/// `view_trees` is the pointwise image of `view_tree`.
pub broadcast proof fn lemma_view_trees(ts: Seq<ClassTree>)
    ensures
        #![trigger view_trees(ts)]
        view_trees(ts).len() == ts.len(),
        forall|i: int| 0 <= i < ts.len() ==> view_trees(ts)[i] == view_tree(ts[i]),
    decreases ts.len(),
{
    if ts.len() > 0 {
        lemma_view_trees(ts.subrange(1, ts.len() as int));
    }
}

/// The names of the root nodes of a list of trees.
pub open spec fn root_names(ts: Seq<SpecTree>) -> Seq<Seq<char>> {
    ts.map_values(|t: SpecTree| t.name)
}

/// Whether every subtree of the list faithfully describes the table.
pub open spec fn trees_describe(cs: Seq<crate::ast::SpecClass>, ts: Seq<SpecTree>) -> bool
    decreases ts,
{
    if ts.len() == 0 {
        true
    } else {
        tree_describes(cs, ts[0]) && trees_describe(cs, ts.subrange(1, ts.len() as int))
    }
}

/// Whether the tree faithfully describes the table below its root: the
/// children are exactly the direct subtypes of the root, in lexicographic
/// order, and each child subtree describes the table in turn.
pub open spec fn tree_describes(cs: Seq<crate::ast::SpecClass>, t: SpecTree) -> bool
    decreases t,
{
    &&& sorted_names(root_names(t.children))
    &&& forall|n: Seq<char>|
        name_in(root_names(t.children), n) <==> (has_class(cs, n) && super_name(cs, n) == t.name
            && n != t.name)
    &&& trees_describe(cs, t.children)
}

/// `trees_describe` is the pointwise conjunction of `tree_describes`.
pub broadcast proof fn lemma_trees_describe(cs: Seq<crate::ast::SpecClass>, ts: Seq<SpecTree>)
    ensures
        #![trigger trees_describe(cs, ts)]
        trees_describe(cs, ts) == (forall|i: int|
            0 <= i < ts.len() ==> tree_describes(cs, ts[i])),
    decreases ts.len(),
{
    if ts.len() > 0 {
        lemma_trees_describe(cs, ts.subrange(1, ts.len() as int));
        if tree_describes(cs, ts[0]) && (forall|i: int|
            0 <= i < ts.len() - 1 ==> tree_describes(cs, ts.subrange(1, ts.len() as int)[i])) {
            assert forall|i: int| 0 <= i < ts.len() implies tree_describes(cs, ts[i]) by {
                if i > 0 {
                    assert(ts.subrange(1, ts.len() as int)[i - 1] == ts[i]);
                }
            }
        }
    }
}

/// The rank of a direct subtype is one more than its superclass's rank, and
/// stays within the table size.
proof fn lemma_child_rank(cs: Seq<crate::ast::SpecClass>, n: Seq<char>)
    requires
        crate::class_table::table_wf(cs),
        has_class(cs, n),
    ensures
        rank_of(cs, n) <= cs.len(),
        rank_of(cs, n) == 1 + rank_of(cs, super_name(cs, n)),
{
    crate::class_table::lemma_rank_decreases(cs, n);
    lemma_rank_fuel_bound(cs, n, cs.len() as nat);
    let f = cs.len() as nat;
    assert(crate::class_table::reaches_object(cs, n, f));
    assert(n != object_name());
    assert(f >= 1);
    assert(crate::class_table::chain_rank(cs, n, f) == 1 + crate::class_table::chain_rank(
        cs,
        super_name(cs, n),
        (f - 1) as nat,
    ));
    crate::class_table::lemma_rank_stable(cs, super_name(cs, n), (f - 1) as nat, f);
}

/// The capped chain length never exceeds its fuel.
proof fn lemma_rank_fuel_bound(cs: Seq<crate::ast::SpecClass>, c: Seq<char>, fuel: nat)
    ensures
        crate::class_table::chain_rank(cs, c, fuel) <= fuel,
    decreases fuel,
{
    if c != object_name() && has_class(cs, c) && fuel > 0 {
        lemma_rank_fuel_bound(cs, super_name(cs, c), (fuel - 1) as nat);
    }
}

impl ClassTree {
    /// The inheritance tree of the whole table, rooted at `"Object"`.
    pub fn new(ct: &ClassTable) -> (r: ClassTree)
        requires
            ct.wf(),
        ensures
            r@.name == object_name(),
            tree_describes(ct@, r@),
    {
        Self::new_for(ct, &ClassName::object())
    }

    /// The inheritance tree rooted at the given defined class.
    fn new_for(ct: &ClassTable, c: &ClassName) -> (r: ClassTree)
        requires
            ct.wf(),
            contains_name(ct@, c@),
        ensures
            r@.name == c@,
            tree_describes(ct@, r@),
        decreases ct@.len() + 1 - rank_of(ct@, c@),
    {
        broadcast use crate::ast::group_ast_views, lemma_view_trees, lemma_trees_describe;

        proof {
            if c@ == object_name() {
                assert(rank_of(ct@, c@) == 0);
            } else {
                lemma_child_rank(ct@, c@);
            }
        }
        let subs = match ct.direct_subtypes(c) {
            Some(v) => v,
            None => {
                proof {
                    assert(false);
                }
                Vec::new()
            },
        };
        let n = subs.len();
        let mut children: Vec<ClassTree> = Vec::new();
        let mut i: usize = 0;
        while i < n
            invariant
                i <= n,
                n == subs@.len(),
                ct.wf(),
                contains_name(ct@, c@),
                sorted_names(view_class_names(subs@)),
                forall|x: Seq<char>|
                    name_in(view_class_names(subs@), x) <==> (has_class(ct@, x) && super_name(
                        ct@,
                        x,
                    ) == c@ && x != c@),
                children@.len() == i,
                forall|x: int|
                    0 <= x < i ==> (#[trigger] view_tree(children@[x])).name == subs@[x]@
                        && tree_describes(ct@, view_tree(children@[x])),
            decreases n - i,
        {
            proof {
                crate::ast::lemma_view_class_names(subs@);
                assert(view_class_names(subs@)[i as int] == subs@[i as int]@);
                assert(name_in(view_class_names(subs@), subs@[i as int]@));
                assert(has_class(ct@, subs@[i as int]@));
                lemma_child_rank(ct@, subs@[i as int]@);
            }
            let child = Self::new_for(ct, &subs[i]);
            children.push(child);
            i = i + 1;
        }
        let r = ClassTree { name: c.duplicate(), children };
        proof {
            assert(root_names(view_trees(r.children@)) =~= view_class_names(subs@));
            assert(trees_describe(ct@, view_trees(r.children@)));
        }
        r
    }
}

// ------------------------------------------------------------------
// Rendering
// ------------------------------------------------------------------

/// The printed form of a tree under the given indentation prefix: the root
/// on its own line, then each child indented two more spaces.
pub open spec fn render_tree(t: SpecTree, prefix: Seq<char>) -> Seq<char>
    decreases t,
{
    prefix + t.name + seq!['\n'] + render_trees(t.children, prefix + seq![' ', ' '])
}

/// The printed forms of the trees, one after another.
pub open spec fn render_trees(ts: Seq<SpecTree>, prefix: Seq<char>) -> Seq<char>
    decreases ts,
{
    if ts.len() == 0 {
        Seq::empty()
    } else {
        render_tree(ts[0], prefix) + render_trees(ts.subrange(1, ts.len() as int), prefix)
    }
}

impl ClassTree {
    /// The tree as text: one class per line, two spaces of indentation per
    /// level, siblings in lexicographic order.
    pub fn render(&self) -> (r: String)
        ensures
            r@ == render_tree(self@, Seq::empty()),
    {
        let empty = String::new();
        self.render_with(&empty)
    }

    fn render_with(&self, prefix: &String) -> (r: String)
        ensures
            r@ == render_tree(self@, prefix@),
        decreases *self,
    {
        broadcast use lemma_view_trees;

        let mut out = prefix.clone();
        out.append(self.name.0.as_str());
        out.append("\n");
        let mut child_prefix = prefix.clone();
        child_prefix.append("  ");
        proof {
            reveal_strlit("\n");
            reveal_strlit("  ");
            assert("\n"@ =~= seq!['\n']);
            assert("  "@ =~= seq![' ', ' ']);
        }
        let ghost base = prefix@ + self@.name + seq!['\n'];
        let ghost all = view_trees(self.children@);
        let ghost cp = prefix@ + seq![' ', ' '];
        proof {
            assert(out@ =~= base);
            assert(child_prefix@ =~= cp);
            assert(all.subrange(0, all.len() as int) =~= all);
            assert(render_tree(self@, prefix@) == base + render_trees(all, cp));
        }
        let n = self.children.len();
        let mut i: usize = 0;
        while i < n
            invariant
                i <= n,
                n == self.children@.len(),
                all == view_trees(self.children@),
                all.len() == n,
                child_prefix@ == cp,
                render_tree(self@, prefix@) == out@ + render_trees(
                    all.subrange(i as int, all.len() as int),
                    cp,
                ),
            decreases n - i,
        {
            let ghost suffix = all.subrange(i as int, all.len() as int);
            proof {
                lemma_view_trees(self.children@);
                assert(suffix[0] == all[i as int]);
                assert(all[i as int] == view_tree(self.children@[i as int]));
                assert(suffix.subrange(1, suffix.len() as int) =~= all.subrange(
                    i as int + 1,
                    all.len() as int,
                ));
            }
            let cr = self.children[i].render_with(&child_prefix);
            let ghost before = out@;
            out.append(cr.as_str());
            proof {
                assert(out@ =~= before + cr@);
                assert((before + cr@) + render_trees(
                    all.subrange(i as int + 1, all.len() as int),
                    cp,
                ) =~= before + (cr@ + render_trees(
                    all.subrange(i as int + 1, all.len() as int),
                    cp,
                )));
            }
            i = i + 1;
        }
        proof {
            assert(render_trees(all.subrange(i as int, all.len() as int), cp).len() == 0);
            assert(out@ + render_trees(all.subrange(i as int, all.len() as int), cp) =~= out@);
        }
        out
    }
}

} // verus!
