//! Boxes, reference counting and interior mutability.

use std::rc::Rc;
use vstd::prelude::*;
use vstd::cell::invcell::InvCell;
use vstd::string::StringExecFns;
use crate::shared_state::increment_value;
use crate::text::texts;

verus! {

broadcast use vstd::std_specs::vec::axiom_vec_decreases_to_view, vstd::seq::axiom_seq_index_decreases;

pub open spec fn fits_i32(v: int) -> bool {
    i32::MIN <= v <= i32::MAX
}

/// A binary tree of `i32` values.
pub struct BinaryTreeNode {
    value: i32,
    left_child: Option<Box<BinaryTreeNode>>,
    right_child: Option<Box<BinaryTreeNode>>,
}

impl BinaryTreeNode {
    /// The sum of every value in the tree.
    pub closed spec fn total(&self) -> int
        decreases self,
    {
        self.value + match self.left_child {
            Some(l) => l.total(),
            None => 0,
        } + match self.right_child {
            Some(r) => r.total(),
            None => 0,
        }
    }

    /// Summing the tree as `sum` does stays within `i32` at every step.
    pub closed spec fn sum_fits(&self) -> bool
        decreases self,
    {
        let lt = match self.left_child {
            Some(l) => l.total(),
            None => 0,
        };
        let rt = match self.right_child {
            Some(r) => r.total(),
            None => 0,
        };
        &&& match self.left_child {
            Some(l) => l.sum_fits(),
            None => true,
        }
        &&& match self.right_child {
            Some(r) => r.sum_fits(),
            None => true,
        }
        &&& fits_i32(self.value + lt)
        &&& fits_i32(self.value + lt + rt)
    }

    /// A leaf.
    pub fn new(value: i32) -> (r: Self)
        ensures
            r.total() == value,
            r.sum_fits(),
    {
        Self { value, left_child: None, right_child: None }
    }

    pub fn with_children(value: i32, left_child: BinaryTreeNode, right_child: BinaryTreeNode) -> (r: Self)
        ensures
            r.total() == value + left_child.total() + right_child.total(),
            r.sum_fits() == (left_child.sum_fits() && right_child.sum_fits() && fits_i32(
                value + left_child.total(),
            ) && fits_i32(value + left_child.total() + right_child.total())),
    {
        Self { value, left_child: Some(Box::new(left_child)), right_child: Some(Box::new(right_child)) }
    }

    /// The sum of every value in the tree.
    pub fn sum(&self) -> (r: i32)
        requires
            self.sum_fits(),
        ensures
            r == self.total(),
        decreases self,
    {
        let l: i32 = match &self.left_child {
            Some(node) => node.sum(),
            None => 0,
        };
        let r: i32 = match &self.right_child {
            Some(node) => node.sum(),
            None => 0,
        };
        self.value + l + r
    }
}

/// A counter that its several owners increment through a shared reference,
/// one at a time; it starts at zero.
pub struct SharedCounter {
    value: InvCell<i32, spec_fn(i32) -> bool>,
}

impl SharedCounter {
    #[verifier::type_invariant]
    spec fn inv(&self) -> bool {
        forall|v: i32| #[trigger] self.value.inv(v) <==> v >= 0
    }

    pub fn new() -> (r: Self) {
        SharedCounter { value: InvCell::new(0, Ghost(|v: i32| v >= 0)) }
    }

    /// Adds one, held at `i32::MAX`.
    pub fn increment(&self) {
        proof {
            use_type_invariant(self);
        }
        let v = self.value.get();
        let next = increment_value(v);
        self.value.set(next);
    }

    /// The current value, never negative.
    pub fn get(&self) -> (r: i32)
        ensures
            r >= 0,
    {
        proof {
            use_type_invariant(self);
        }
        self.value.get()
    }
}

/// A dependency tree of packages, where a package may be shared by several
/// dependents without being copied.
pub struct Package {
    name: String,
    dependencies: Vec<Rc<Package>>,
}

/// The dependency lists of `deps`, one after another.
pub open spec fn nested_lists(deps: Seq<Rc<Package>>) -> Seq<Seq<char>>
    decreases deps,
{
    if deps.len() == 0 {
        Seq::empty()
    } else {
        deps[0].all_dependencies() + nested_lists(deps.subrange(1, deps.len() as int))
    }
}

/// The names of `deps`, in order.
pub open spec fn names_of(deps: Seq<Rc<Package>>) -> Seq<Seq<char>> {
    deps.map_values(|d: Rc<Package>| d.name_view())
}

impl Package {
    pub closed spec fn name_view(&self) -> Seq<char> {
        self.name@
    }

    pub closed spec fn direct(&self) -> Seq<Rc<Package>> {
        self.dependencies@
    }

    /// Every dependency of the package, direct or not: the lists of the
    /// direct dependencies in order, then their names. A package reached
    /// along several paths appears once per path.
    pub closed spec fn all_dependencies(&self) -> Seq<Seq<char>>
        decreases self,
    {
        nested_lists(self.dependencies@) + names_of(self.dependencies@)
    }

    pub fn new(name: &str) -> (r: Self)
        ensures
            r.name_view() == name@,
            r.direct() == Seq::<Rc<Package>>::empty(),
            r.all_dependencies() == Seq::<Seq<char>>::empty(),
    {
        let r = Self { name: String::from_str(name), dependencies: Vec::new() };
        assert(r.all_dependencies() =~= Seq::<Seq<char>>::empty());
        r
    }

    pub fn with_dependencies(name: &str, dependencies: Vec<Rc<Self>>) -> (r: Self)
        ensures
            r.name_view() == name@,
            r.direct() == dependencies@,
            r.all_dependencies() == nested_lists(dependencies@) + names_of(dependencies@),
    {
        Self { name: String::from_str(name), dependencies }
    }

    /// Every dependency, direct or not; a package reached along several paths
    /// is listed once per path.
    pub fn list_dependencies(&self) -> (r: Vec<String>)
        ensures
            texts(r@) == self.all_dependencies(),
        decreases self,
    {
        let ghost deps = self.dependencies@;
        let n = self.dependencies.len();
        let mut out: Vec<String> = Vec::new();
        let mut i: usize = 0;
        assert(deps.subrange(0, n as int) =~= deps);
        assert(texts(out@) =~= Seq::<Seq<char>>::empty());
        while i < n
            invariant
                deps == self.dependencies@,
                n == deps.len(),
                i <= n,
                texts(out@) + nested_lists(deps.subrange(i as int, n as int)) == nested_lists(deps),
            decreases n - i,
        {
            let dep: &Package = &self.dependencies[i];
            assert(decreases_to!(self => *dep));
            let mut sub = dep.list_dependencies();
            let ghost rest = deps.subrange(i as int, n as int);
            assert(rest[0] == deps[i as int]);
            assert(rest.subrange(1, rest.len() as int) =~= deps.subrange(i + 1, n as int));
            let ghost before = out@;
            out.append(&mut sub);
            assert(texts(out@) =~= texts(before) + deps[i as int].all_dependencies());
            i = i + 1;
        }
        assert(deps.subrange(n as int, n as int) =~= Seq::<Rc<Package>>::empty());
        assert(texts(out@) =~= nested_lists(deps));
        let ghost lists = texts(out@);
        let mut j: usize = 0;
        while j < n
            invariant
                deps == self.dependencies@,
                n == deps.len(),
                j <= n,
                texts(out@) == lists + names_of(deps.subrange(0, j as int)),
            decreases n - j,
        {
            let name = self.dependencies[j].name.clone();
            assert(name@ == deps[j as int].name_view());
            let ghost before = out@;
            out.push(name);
            assert(texts(out@) =~= texts(before).push(name@));
            assert(names_of(deps.subrange(0, j + 1)) =~= names_of(deps.subrange(0, j as int)).push(
                deps[j as int].name_view(),
            ));
            assert(texts(out@) =~= lists + names_of(deps.subrange(0, j + 1)));
            j = j + 1;
        }
        assert(deps.subrange(0, n as int) =~= deps);
        out
    }
}

} // verus!
