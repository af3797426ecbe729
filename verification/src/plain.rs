//! Plain values: copied and compared by what they hold.
use vstd::prelude::*;

verus! {

/// A value that can be copied, and compared with another, by what it holds.
pub trait Plain: DeepView + Sized {
    /// A value of its own that holds the same.
    fn duplicate(&self) -> (r: Self)
        ensures
            r.deep_view() == self.deep_view(),
    ;

    /// Whether another value holds the same.
    fn same(&self, other: &Self) -> (b: bool)
        ensures
            b == (self.deep_view() == other.deep_view()),
    ;
}

impl Plain for bool {
    fn duplicate(&self) -> (r: Self) {
        *self
    }

    fn same(&self, other: &Self) -> (b: bool) {
        *self == *other
    }
}

impl Plain for u8 {
    fn duplicate(&self) -> (r: Self) {
        *self
    }

    fn same(&self, other: &Self) -> (b: bool) {
        *self == *other
    }
}

impl Plain for String {
    fn duplicate(&self) -> (r: Self) {
        self.clone()
    }

    fn same(&self, other: &Self) -> (b: bool) {
        *self == *other
    }
}

impl<T: Plain> Plain for Option<T> {
    fn duplicate(&self) -> (r: Self) {
        match self {
            Some(value) => Some(value.duplicate()),
            None => None,
        }
    }

    fn same(&self, other: &Self) -> (b: bool) {
        match (self, other) {
            (Some(left), Some(right)) => left.same(right),
            (None, None) => true,
            _ => false,
        }
    }
}

impl<T: Plain> Plain for Vec<T> {
    fn duplicate(&self) -> (r: Self) {
        let mut r: Vec<T> = Vec::new();
        let mut i: usize = 0;
        while i < self.len()
            invariant
                i <= self.len(),
                r.deep_view() == self.deep_view().take(i as int),
            decreases self.len() - i,
        {
            let ghost before = r;
            let item = self[i].duplicate();
            r.push(item);
            proof {
                pushing_deepens(before, r, item);
            }
            assert(r.deep_view() == self.deep_view().take(i + 1));
            i = i + 1;
        }
        assert(self.deep_view().take(i as int) == self.deep_view());
        r
    }

    fn same(&self, other: &Self) -> (b: bool) {
        if self.len() != other.len() {
            assert(self.deep_view().len() != other.deep_view().len());
            return false;
        }
        let mut i: usize = 0;
        while i < self.len()
            invariant
                i <= self.len() == other.len(),
                forall|j: int|
                    0 <= j < i ==> self.deep_view()[j] == #[trigger] other.deep_view()[j],
            decreases self.len() - i,
        {
            if !self[i].same(&other[i]) {
                assert(self.deep_view()[i as int] != other.deep_view()[i as int]);
                return false;
            }
            i = i + 1;
        }
        assert(self.deep_view() == other.deep_view());
        true
    }
}

/// The deep view of a vector grows with the vector.
pub proof fn pushing_deepens<T: DeepView>(before: Vec<T>, after: Vec<T>, item: T)
    requires
        after@ == before@.push(item),
    ensures
        after.deep_view() == before.deep_view().push(item.deep_view()),
{
    assert(after.deep_view() =~= before.deep_view().push(item.deep_view()));
}

/// A sequence extended by an item, unless it holds the item already.
pub open spec fn pushed_once<T>(items: Seq<T>, item: T) -> Seq<T> {
    if items.contains(item) {
        items
    } else {
        items.push(item)
    }
}

/// Where no item comes twice, none does after another was added once. What is held then is what was
/// held before, and the item.
pub proof fn pushing_once_keeps_different<T>(items: Seq<T>, item: T)
    requires
        items.no_duplicates(),
    ensures
        pushed_once(items, item).no_duplicates(),
        forall|other: T| #[trigger]
            pushed_once(items, item).contains(other) <==> items.contains(other) || other == item,
{
    let after = pushed_once(items, item);
    if !items.contains(item) {
        assert(after[items.len() as int] == item);
        assert forall|other: T| items.contains(other) implies #[trigger] after.contains(other) by {
            let i = choose|i: int| 0 <= i < items.len() && items[i] == other;
            assert(after[i] == other);
        }
    }
}

/// Extends a list by an item, unless the list holds it.
pub fn push_once<T: Plain>(items: &mut Vec<T>, item: T)
    ensures
        final(items).deep_view() == pushed_once(old(items).deep_view(), item.deep_view()),
{
    let ghost before = *items;
    let mut i: usize = 0;
    while i < items.len()
        invariant
            *items == before,
            before == *old(items),
            i <= items.len(),
            forall|j: int| 0 <= j < i ==> items.deep_view()[j] != item.deep_view(),
        decreases items.len() - i,
    {
        if items[i].same(&item) {
            assert(items.deep_view()[i as int] == item.deep_view());
            return;
        }
        i = i + 1;
    }
    items.push(item);
    proof {
        pushing_deepens(before, *items, item);
    }
}

} // verus!
