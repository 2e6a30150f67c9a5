use vstd::prelude::*;

verus! {

/// A value whose mathematical content is its deep view.
pub trait Model: DeepView + Sized {
    /// Makes an independent value with the same content.
    fn duplicate(&self) -> (copy: Self)
        ensures
            copy.deep_view() == self.deep_view(),
    ;

    /// Decides whether two values have the same content.
    fn same(&self, other: &Self) -> (equal: bool)
        ensures
            equal == (self.deep_view() == other.deep_view()),
    ;
}

impl Model for i64 {
    fn duplicate(&self) -> (copy: Self) {
        *self
    }

    fn same(&self, other: &Self) -> (equal: bool) {
        *self == *other
    }
}

impl Model for u8 {
    fn duplicate(&self) -> (copy: Self) {
        *self
    }

    fn same(&self, other: &Self) -> (equal: bool) {
        *self == *other
    }
}

impl Model for u16 {
    fn duplicate(&self) -> (copy: Self) {
        *self
    }

    fn same(&self, other: &Self) -> (equal: bool) {
        *self == *other
    }
}

impl Model for u32 {
    fn duplicate(&self) -> (copy: Self) {
        *self
    }

    fn same(&self, other: &Self) -> (equal: bool) {
        *self == *other
    }
}

impl Model for u64 {
    fn duplicate(&self) -> (copy: Self) {
        *self
    }

    fn same(&self, other: &Self) -> (equal: bool) {
        *self == *other
    }
}

impl Model for usize {
    fn duplicate(&self) -> (copy: Self) {
        *self
    }

    fn same(&self, other: &Self) -> (equal: bool) {
        *self == *other
    }
}

impl Model for u128 {
    fn duplicate(&self) -> (copy: Self) {
        *self
    }

    fn same(&self, other: &Self) -> (equal: bool) {
        *self == *other
    }
}

impl Model for bool {
    fn duplicate(&self) -> (copy: Self) {
        *self
    }

    fn same(&self, other: &Self) -> (equal: bool) {
        *self == *other
    }
}

impl Model for String {
    fn duplicate(&self) -> (copy: Self) {
        self.clone()
    }

    fn same(&self, other: &Self) -> (equal: bool) {
        *self == *other
    }
}

impl<T: Model> Model for Option<T> {
    fn duplicate(&self) -> (copy: Self) {
        match self {
            Some(value) => Some(value.duplicate()),
            None => None,
        }
    }

    fn same(&self, other: &Self) -> (equal: bool) {
        match (self, other) {
            (Some(left), Some(right)) => left.same(right),
            (None, None) => true,
            _ => false,
        }
    }
}

impl<T: Model> Model for Vec<T> {
    fn duplicate(&self) -> (copy: Self) {
        let mut copy: Vec<T> = Vec::with_capacity(self.len());
        let mut i: usize = 0;
        while i < self.len()
            invariant
                i <= self@.len(),
                copy@.len() == i,
                forall|j: int|
                    0 <= j < i ==> (#[trigger] copy@[j]).deep_view() == self@[j].deep_view(),
            decreases self@.len() - i,
        {
            copy.push(self[i].duplicate());
            i = i + 1;
        }
        assert(copy.deep_view() =~= self.deep_view());
        copy
    }

    fn same(&self, other: &Self) -> (equal: bool) {
        slice_same(self.as_slice(), other.as_slice())
    }
}

impl<const N: usize> Model for [u8; N] {
    fn duplicate(&self) -> (copy: Self) {
        *self
    }

    fn same(&self, other: &Self) -> (equal: bool) {
        let mut i: usize = 0;
        while i < N
            invariant
                i <= N,
                forall|j: int| 0 <= j < i ==> self@[j] == other@[j],
            decreases N - i,
        {
            if self[i] != other[i] {
                assert(self.deep_view()[i as int] != other.deep_view()[i as int]);
                return false;
            }
            i = i + 1;
        }
        assert(self.deep_view() =~= other.deep_view());
        true
    }
}

/// The content of a byte vector is the bytes themselves.
pub broadcast proof fn byte_vec_content(v: Vec<u8>)
    ensures
        #[trigger] v.deep_view() == v@,
{
    assert(v.deep_view() =~= v@);
}

/// The content of a byte array is the bytes themselves.
pub broadcast proof fn byte_array_content<const N: usize>(a: [u8; N])
    ensures
        #[trigger] a.deep_view() == a@,
{
    assert(a.deep_view() =~= a@);
}

pub broadcast group group_contents {
    byte_vec_content,
    byte_array_content,
}

/// The content of a result: the content of the value or of the error.
pub open spec fn outcome<T: DeepView, E: DeepView>(result: Result<T, E>) -> Result<T::V, E::V> {
    match result {
        Ok(value) => Ok(value.deep_view()),
        Err(error) => Err(error.deep_view()),
    }
}

/// The contents of the elements of a sequence.
pub open spec fn contents<T: DeepView>(s: Seq<T>) -> Seq<T::V> {
    Seq::new(s.len(), |i: int| s[i].deep_view())
}

/// Decides whether two slices hold the same contents in the same order.
pub fn slice_same<T: Model>(left: &[T], right: &[T]) -> (equal: bool)
    ensures
        equal == (contents(left@) == contents(right@)),
{
    if left.len() != right.len() {
        assert(contents(left@).len() != contents(right@).len());
        return false;
    }
    let mut i: usize = 0;
    while i < left.len()
        invariant
            i <= left@.len(),
            left@.len() == right@.len(),
            forall|j: int|
                0 <= j < i ==> (#[trigger] left@[j]).deep_view() == right@[j].deep_view(),
        decreases left@.len() - i,
    {
        if !left[i].same(&right[i]) {
            assert(contents(left@)[i as int] != contents(right@)[i as int]);
            return false;
        }
        i = i + 1;
    }
    assert(contents(left@) =~= contents(right@));
    true
}

} // verus!
