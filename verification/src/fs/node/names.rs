//! The names in a directory.
use vstd::prelude::*;

use crate::fs::node::DynINode;

verus! {

/// Whether a name comes before another one.
pub open spec fn before(a: Seq<u8>, b: Seq<u8>) -> bool
    decreases a.len(),
{
    if b.len() == 0 {
        false
    } else if a.len() == 0 {
        true
    } else if a[0] != b[0] {
        a[0] < b[0]
    } else {
        before(a.skip(1), b.skip(1))
    }
}

/// Names that differ come one before the other.
proof fn lemma_total(a: Seq<u8>, b: Seq<u8>)
    ensures
        a == b || before(a, b) || before(b, a),
        !(before(a, b) && before(b, a)),
        before(a, b) ==> a != b,
    decreases a.len(),
{
    if a.len() > 0 && b.len() > 0 && a[0] == b[0] {
        lemma_total(a.skip(1), b.skip(1));
        if a.skip(1) == b.skip(1) {
            assert(a =~= seq![a[0]] + a.skip(1));
            assert(b =~= seq![b[0]] + b.skip(1));
        }
    } else if a.len() == 0 && b.len() == 0 {
        assert(a =~= b);
    }
}

/// A name that comes before a name comes before all names after that.
proof fn lemma_transitive(a: Seq<u8>, b: Seq<u8>, c: Seq<u8>)
    requires
        before(a, b),
        before(b, c),
    ensures
        before(a, c),
    decreases a.len(),
{
    if a.len() > 0 && b.len() > 0 && c.len() > 0 && a[0] == b[0] && b[0] == c[0] {
        lemma_transitive(a.skip(1), b.skip(1), c.skip(1));
    }
}

/// Where a name is relative to another one.
#[derive(Clone, Copy, PartialEq, Eq, Structural, Debug)]
pub enum Place {
    /// Before the other one.
    Before,
    /// The names are the same.
    Same,
    /// After the other one.
    After,
}

/// Returns where a name is relative to another one.
fn place(a: &Vec<u8>, b: &Vec<u8>) -> (res: Place)
    ensures
        res == Place::Before <==> before(a@, b@),
        res == Place::Same <==> a@ == b@,
        res == Place::After <==> before(b@, a@),
{
    proof {
        lemma_total(a@, b@);
    }
    let mut i: usize = 0;
    assert(a@.skip(0) =~= a@);
    assert(b@.skip(0) =~= b@);
    while i < a.len() && i < b.len()
        invariant
            i <= a@.len(),
            i <= b@.len(),
            a@.take(i as int) == b@.take(i as int),
            before(a@, b@) == before(a@.skip(i as int), b@.skip(i as int)),
            before(b@, a@) == before(b@.skip(i as int), a@.skip(i as int)),
            a@ == b@ || before(a@, b@) || before(b@, a@),
            !(before(a@, b@) && before(b@, a@)),
            before(a@, b@) ==> a@ != b@,
            before(b@, a@) ==> a@ != b@,
        decreases a@.len() - i,
    {
        if a[i] < b[i] {
            return Place::Before;
        }
        if b[i] < a[i] {
            return Place::After;
        }
        assert(a@.skip(i as int).skip(1) =~= a@.skip(i + 1));
        assert(b@.skip(i as int).skip(1) =~= b@.skip(i + 1));
        assert(a@.take(i + 1) =~= a@.take(i as int).push(a@[i as int]));
        assert(b@.take(i + 1) =~= b@.take(i as int).push(b@[i as int]));
        i = i + 1;
    }
    if i < b.len() {
        Place::Before
    } else if i < a.len() {
        Place::After
    } else {
        assert(a@.take(i as int) =~= a@);
        assert(b@.take(i as int) =~= b@);
        Place::Same
    }
}

/// The nodes in a directory by their names.
pub struct NameMap {
    items: Vec<(Vec<u8>, DynINode)>,
}

/// The names are in order.
pub open spec fn in_order(items: Seq<(Seq<u8>, DynINode)>) -> bool {
    forall|i: int, j: int|
        0 <= i < j < items.len() ==> before((#[trigger] items[i]).0, (#[trigger] items[j]).0)
}

impl View for NameMap {
    type V = Seq<(Seq<u8>, DynINode)>;

    closed spec fn view(&self) -> Seq<(Seq<u8>, DynINode)> {
        Seq::new(self.items@.len(), |i: int| (self.items@[i].0@, self.items@[i].1))
    }
}

/// Whether there is a node with a name.
pub open spec fn is_named(items: Seq<(Seq<u8>, DynINode)>, name: Seq<u8>) -> bool {
    exists|i: int| 0 <= i < items.len() && (#[trigger] items[i]).0 == name
}

/// The index of the node with a name.
pub open spec fn index_of(items: Seq<(Seq<u8>, DynINode)>, name: Seq<u8>) -> int {
    choose|i: int| 0 <= i < items.len() && (#[trigger] items[i]).0 == name
}

/// The node with a name.
pub open spec fn node(items: Seq<(Seq<u8>, DynINode)>, name: Seq<u8>) -> Option<DynINode> {
    if is_named(items, name) {
        Some(items[index_of(items, name)].1)
    } else {
        None
    }
}

/// Names that are in order are all different.
proof fn lemma_index(items: Seq<(Seq<u8>, DynINode)>, i: int)
    requires
        in_order(items),
        0 <= i < items.len(),
    ensures
        is_named(items, items[i].0),
        index_of(items, items[i].0) == i,
        node(items, items[i].0) == Some(items[i].1),
{
    let name = items[i].0;
    assert(items[i].0 == name);
    let j = index_of(items, name);
    assert(0 <= j < items.len() && items[j].0 == name);
    lemma_total(name, name);
    if i < j {
        assert(before(items[i].0, items[j].0));
    } else if j < i {
        assert(before(items[j].0, items[i].0));
    }
}

impl NameMap {
    /// The names are in order.
    pub open spec fn wf(self) -> bool {
        in_order(self@)
    }

    /// Creates a map without nodes.
    pub fn new() -> (res: Self)
        ensures
            res.wf(),
            res@ == Seq::<(Seq<u8>, DynINode)>::empty(),
    {
        let res = NameMap { items: Vec::new() };
        assert(res@ =~= Seq::empty());
        res
    }

    /// The number of nodes.
    pub fn len(&self) -> (res: usize)
        ensures
            res == self@.len(),
    {
        self.items.len()
    }

    /// The node at an index.
    pub fn node_at(&self, i: usize) -> (res: DynINode)
        requires
            i < self@.len(),
        ensures
            res == self@[i as int].1,
    {
        self.items[i].1
    }

    /// The name at an index.
    pub fn name_at(&self, i: usize) -> (res: Vec<u8>)
        requires
            i < self@.len(),
        ensures
            res@ == self@[i as int].0,
    {
        let name = self.items[i].0.clone();
        assert(name@ =~= self@[i as int].0);
        name
    }

    /// Finds a name. If there is no node with the name, returns where it belongs.
    fn search(&self, name: &Vec<u8>) -> (res: Result<usize, usize>)
        requires
            self.wf(),
        ensures
            match res {
                Ok(i) => i < self@.len() && self@[i as int].0 == name@ && index_of(self@, name@)
                    == i && is_named(self@, name@),
                Err(i) => {
                    &&& i <= self@.len()
                    &&& !is_named(self@, name@)
                    &&& forall|j: int| 0 <= j < i ==> before((#[trigger] self@[j]).0, name@)
                    &&& forall|j: int|
                        i <= j < self@.len() ==> before(name@, (#[trigger] self@[j]).0)
                },
            },
    {
        let mut i: usize = 0;
        while i < self.items.len()
            invariant
                self.wf(),
                i <= self@.len(),
                self@.len() == self.items@.len(),
                forall|j: int| 0 <= j < i ==> before((#[trigger] self@[j]).0, name@),
            decreases self@.len() - i,
        {
            assert(self@[i as int].0 == self.items@[i as int].0@);
            match place(&self.items[i].0, name) {
                Place::Before => {},
                Place::Same => {
                    proof {
                        lemma_index(self@, i as int);
                    }
                    return Ok(i);
                },
                Place::After => {
                    proof {
                        assert forall|j: int| i <= j < self@.len() implies before(
                            name@,
                            (#[trigger] self@[j]).0,
                        ) by {
                            if i < j {
                                assert(before(self@[i as int].0, self@[j].0));
                                lemma_transitive(name@, self@[i as int].0, self@[j].0);
                            }
                        }
                        lemma_absent(self@, name@, i as int);
                    }
                    return Err(i);
                },
            }
            i = i + 1;
        }
        proof {
            lemma_absent(self@, name@, i as int);
        }
        Err(i)
    }

    /// Finds the node with a name.
    pub fn get(&self, name: &Vec<u8>) -> (res: Option<DynINode>)
        requires
            self.wf(),
        ensures
            res == node(self@, name@),
    {
        match self.search(name) {
            Ok(i) => Some(self.items[i].1),
            Err(_) => None,
        }
    }

    /// Gives a node a name. If there is another node with the name, it is replaced.
    pub fn insert(&mut self, name: Vec<u8>, value: DynINode)
        requires
            old(self).wf(),
        ensures
            final(self).wf(),
            node(final(self)@, name@) == Some(value),
            forall|other: Seq<u8>|
                other != name@ ==> #[trigger] node(final(self)@, other) == node(old(self)@, other),
    {
        let ghost old_items = self@;
        let ghost new_name = name@;
        match self.search(&name) {
            Ok(i) => {
                let ghost key = self.items@[i as int].0@;
                assert(key == new_name);
                self.items[i].1 = value;
                assert(self@ =~= old_items.update(i as int, (new_name, value)));
                proof {
                    lemma_replaced(old_items, i as int, value);
                }
            },
            Err(i) => {
                self.items.insert(i, (name, value));
                assert(self@ =~= old_items.insert(i as int, (new_name, value)));
                proof {
                    lemma_inserted(old_items, i as int, new_name, value);
                }
            },
        }
    }

    /// Removes the node with a name.
    pub fn remove(&mut self, name: &Vec<u8>)
        requires
            old(self).wf(),
        ensures
            final(self).wf(),
            node(final(self)@, name@) is None,
            forall|other: Seq<u8>|
                other != name@ ==> #[trigger] node(final(self)@, other) == node(old(self)@, other),
    {
        let ghost old_items = self@;
        match self.search(name) {
            Ok(i) => {
                self.items.remove(i);
                assert(self@ =~= old_items.remove(i as int));
                proof {
                    lemma_removed(old_items, i as int);
                }
            },
            Err(_) => {},
        }
    }
}

/// A name that belongs between others isn't one of them.
proof fn lemma_absent(items: Seq<(Seq<u8>, DynINode)>, name: Seq<u8>, i: int)
    requires
        0 <= i <= items.len(),
        forall|j: int| 0 <= j < i ==> before((#[trigger] items[j]).0, name),
        forall|j: int| i <= j < items.len() ==> before(name, (#[trigger] items[j]).0),
    ensures
        !is_named(items, name),
{
    lemma_total(name, name);
    assert forall|j: int| 0 <= j < items.len() implies (#[trigger] items[j]).0 != name by {}
}

/// A node is found if it is among the items.
proof fn lemma_same_node(
    a: Seq<(Seq<u8>, DynINode)>,
    b: Seq<(Seq<u8>, DynINode)>,
    name: Seq<u8>,
)
    requires
        in_order(a),
        in_order(b),
        forall|i: int|
            0 <= i < a.len() && (#[trigger] a[i]).0 == name ==> exists|j: int|
                0 <= j < b.len() && #[trigger] b[j] == a[i],
        forall|j: int|
            0 <= j < b.len() && (#[trigger] b[j]).0 == name ==> exists|i: int|
                0 <= i < a.len() && #[trigger] a[i] == b[j],
    ensures
        node(a, name) == node(b, name),
{
    if is_named(a, name) {
        let i = index_of(a, name);
        assert(a[i].0 == name);
        let j = choose|j: int| 0 <= j < b.len() && #[trigger] b[j] == a[i];
        lemma_index(b, j);
    } else if is_named(b, name) {
        let j = index_of(b, name);
        assert(b[j].0 == name);
        let i = choose|i: int| 0 <= i < a.len() && #[trigger] a[i] == b[j];
        assert(a[i].0 == name);
    }
}

proof fn lemma_replaced(items: Seq<(Seq<u8>, DynINode)>, i: int, value: DynINode)
    requires
        in_order(items),
        0 <= i < items.len(),
    ensures
        in_order(items.update(i, (items[i].0, value))),
        node(items.update(i, (items[i].0, value)), items[i].0) == Some(value),
        forall|other: Seq<u8>|
            other != items[i].0 ==> #[trigger] node(items.update(i, (items[i].0, value)), other)
                == node(items, other),
{
    let new = items.update(i, (items[i].0, value));
    assert forall|a: int, b: int| 0 <= a < b < new.len() implies before(
        (#[trigger] new[a]).0,
        (#[trigger] new[b]).0,
    ) by {
        assert(before(items[a].0, items[b].0));
    }
    lemma_index(new, i);
    assert forall|other: Seq<u8>| other != items[i].0 implies #[trigger] node(new, other) == node(
        items,
        other,
    ) by {
        assert forall|k: int| 0 <= k < new.len() && (#[trigger] new[k]).0 == other implies exists|
            j: int,
        |
            0 <= j < items.len() && #[trigger] items[j] == new[k] by {
            assert(items[k] == new[k]);
        }
        assert forall|k: int| 0 <= k < items.len() && (#[trigger] items[k]).0
            == other implies exists|j: int| 0 <= j < new.len() && #[trigger] new[j] == items[k] by {
            assert(new[k] == items[k]);
        }
        lemma_same_node(new, items, other);
    }
}

proof fn lemma_inserted(
    items: Seq<(Seq<u8>, DynINode)>,
    i: int,
    name: Seq<u8>,
    value: DynINode,
)
    requires
        in_order(items),
        0 <= i <= items.len(),
        forall|j: int| 0 <= j < i ==> before((#[trigger] items[j]).0, name),
        forall|j: int| i <= j < items.len() ==> before(name, (#[trigger] items[j]).0),
    ensures
        in_order(items.insert(i, (name, value))),
        node(items.insert(i, (name, value)), name) == Some(value),
        forall|other: Seq<u8>|
            other != name ==> #[trigger] node(items.insert(i, (name, value)), other) == node(
                items,
                other,
            ),
{
    let new = items.insert(i, (name, value));
    assert forall|a: int, b: int| 0 <= a < b < new.len() implies before(
        (#[trigger] new[a]).0,
        (#[trigger] new[b]).0,
    ) by {
        if a < i && b < i {
            assert(before(items[a].0, items[b].0));
        } else if a < i && b > i {
            assert(before(items[a].0, items[b - 1].0));
        } else if a > i {
            assert(before(items[a - 1].0, items[b - 1].0));
        }
    }
    assert(new[i] == (name, value));
    lemma_index(new, i);
    assert forall|other: Seq<u8>| other != name implies #[trigger] node(new, other) == node(
        items,
        other,
    ) by {
        assert forall|k: int| 0 <= k < new.len() && (#[trigger] new[k]).0 == other implies exists|
            j: int,
        |
            0 <= j < items.len() && #[trigger] items[j] == new[k] by {
            if k < i {
                assert(items[k] == new[k]);
            } else {
                assert(items[k - 1] == new[k]);
            }
        }
        assert forall|k: int| 0 <= k < items.len() && (#[trigger] items[k]).0
            == other implies exists|j: int| 0 <= j < new.len() && #[trigger] new[j] == items[k] by {
            if k < i {
                assert(new[k] == items[k]);
            } else {
                assert(new[k + 1] == items[k]);
            }
        }
        lemma_same_node(new, items, other);
    }
}

proof fn lemma_removed(items: Seq<(Seq<u8>, DynINode)>, i: int)
    requires
        in_order(items),
        0 <= i < items.len(),
    ensures
        in_order(items.remove(i)),
        node(items.remove(i), items[i].0) is None,
        forall|other: Seq<u8>|
            other != items[i].0 ==> #[trigger] node(items.remove(i), other) == node(items, other),
{
    let new = items.remove(i);
    let name = items[i].0;
    assert forall|a: int, b: int| 0 <= a < b < new.len() implies before(
        (#[trigger] new[a]).0,
        (#[trigger] new[b]).0,
    ) by {
        let c = if a < i {
            a
        } else {
            a + 1
        };
        let d = if b < i {
            b
        } else {
            b + 1
        };
        assert(before(items[c].0, items[d].0));
    }
    assert forall|j: int| 0 <= j < new.len() implies if j < i {
        before((#[trigger] new[j]).0, name)
    } else {
        before(name, new[j].0)
    } by {
        if j < i {
            assert(before(items[j].0, items[i].0));
        } else {
            assert(before(items[i].0, items[j + 1].0));
        }
    }
    lemma_absent(new, name, i);
    assert forall|other: Seq<u8>| other != name implies #[trigger] node(new, other) == node(
        items,
        other,
    ) by {
        assert forall|k: int| 0 <= k < new.len() && (#[trigger] new[k]).0 == other implies exists|
            j: int,
        |
            0 <= j < items.len() && #[trigger] items[j] == new[k] by {
            if k < i {
                assert(items[k] == new[k]);
            } else {
                assert(items[k + 1] == new[k]);
            }
        }
        assert forall|k: int| 0 <= k < items.len() && (#[trigger] items[k]).0
            == other implies exists|j: int| 0 <= j < new.len() && #[trigger] new[j] == items[k] by {
            if k < i {
                assert(new[k] == items[k]);
            } else {
                assert(new[k - 1] == items[k]);
            }
        }
        lemma_same_node(new, items, other);
    }
}

/// Names are ordered by their first byte that differs. A name that another one starts with comes before
/// that one.
pub proof fn law_order_of_names(a: Seq<u8>, b: Seq<u8>)
    ensures
        before(a, b) <==> exists|k: int|
            0 <= k <= a.len() && k < b.len() && #[trigger] a.take(k) == b.take(k) && (k == a.len()
                || a[k] < b[k]),
{
    if before(a, b) {
        let k = lemma_first_difference(a, b);
        assert(a.take(k) == b.take(k));
    }
    if exists|k: int|
        0 <= k <= a.len() && k < b.len() && #[trigger] a.take(k) == b.take(k) && (k == a.len()
            || a[k] < b[k]) {
        let k = choose|k: int|
            0 <= k <= a.len() && k < b.len() && #[trigger] a.take(k) == b.take(k) && (k == a.len()
                || a[k] < b[k]);
        lemma_difference_decides(a, b, k);
    }
}

/// Where two names differ first.
proof fn lemma_first_difference(a: Seq<u8>, b: Seq<u8>) -> (k: int)
    requires
        before(a, b),
    ensures
        0 <= k <= a.len(),
        k < b.len(),
        a.take(k) == b.take(k),
        k == a.len() || a[k] < b[k],
    decreases a.len(),
{
    if a.len() == 0 || a[0] != b[0] {
        assert(a.take(0) =~= b.take(0));
        0
    } else {
        let k = lemma_first_difference(a.skip(1), b.skip(1));
        assert(a.take(k + 1) =~= seq![a[0]] + a.skip(1).take(k));
        assert(b.take(k + 1) =~= seq![b[0]] + b.skip(1).take(k));
        k + 1
    }
}

/// The first difference decides the order of two names.
proof fn lemma_difference_decides(a: Seq<u8>, b: Seq<u8>, k: int)
    requires
        0 <= k <= a.len(),
        k < b.len(),
        a.take(k) == b.take(k),
        k == a.len() || a[k] < b[k],
    ensures
        before(a, b),
    decreases k,
{
    if k > 0 {
        assert(a[0] == a.take(k)[0]);
        assert(b[0] == b.take(k)[0]);
        assert(a.skip(1).take(k - 1) =~= a.take(k).skip(1));
        assert(b.skip(1).take(k - 1) =~= b.take(k).skip(1));
        lemma_difference_decides(a.skip(1), b.skip(1), k - 1);
    }
}

/// The node with a name is the one that goes with the name. There's none if no node has the name.
pub proof fn law_named_nodes(items: Seq<(Seq<u8>, DynINode)>, name: Seq<u8>, i: int)
    requires
        in_order(items),
    ensures
        0 <= i < items.len() ==> node(items, items[i].0) == Some(items[i].1),
        node(items, name) is Some <==> exists|k: int|
            0 <= k < items.len() && (#[trigger] items[k]).0 == name,
{
    if 0 <= i < items.len() {
        lemma_index(items, i);
    }
}

/// No two nodes have the same name, and they are in the order of their names.
pub proof fn law_names_are_distinct(items: Seq<(Seq<u8>, DynINode)>, i: int, j: int)
    requires
        in_order(items),
        0 <= i < j < items.len(),
    ensures
        items[i].0 != items[j].0,
        before(items[i].0, items[j].0),
        !before(items[j].0, items[i].0),
{
    lemma_total(items[i].0, items[j].0);
}

} // verus!
