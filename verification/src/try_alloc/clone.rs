use std::collections::VecDeque;
use vstd::prelude::*;
use vstd::utf8::encode_utf8;

use crate::try_alloc::string::{str_clone_into, string_push_str, string_try_reserve, TryString};
use crate::try_alloc::vec::{TryVec, TryVecDeque};
use crate::try_alloc::AllocError;

verus! {

/// Cloning that reports a failed allocation instead of aborting.
pub trait TryClone: Sized {
    /// A copy of `self`.
    fn try_clone(&self) -> (r: Result<Self, AllocError>);

    /// A copy of `source`, made in place of `self` where that saves
    /// allocations; by default a clone of `source`.
    fn try_clone_from(self, source: &Self) -> (r: Result<Self, AllocError>)
        default_ensures
            call_ensures(Self::try_clone, (source,), r),
    {
        source.try_clone()
    }
}

/// `r` is a result that `T`'s `try_clone` can give for `a`.
pub open spec fn try_cloned<T: TryClone>(a: T, r: Result<T, AllocError>) -> bool {
    call_ensures(T::try_clone, (&a,), r)
}

/// `r` is a result that `T`'s `try_clone_from` can give for `dst` and
/// `src`.
pub open spec fn try_cloned_from<T: TryClone>(dst: T, src: T, r: Result<T, AllocError>) -> bool {
    call_ensures(T::try_clone_from, (dst, &src), r)
}

impl TryClone for u8 {
    fn try_clone(&self) -> (r: Result<Self, AllocError>)
        ensures
            r == Ok::<u8, AllocError>(*self),
    {
        Ok(*self)
    }
}

impl TryClone for u16 {
    fn try_clone(&self) -> (r: Result<Self, AllocError>)
        ensures
            r == Ok::<u16, AllocError>(*self),
    {
        Ok(*self)
    }
}

impl TryClone for u32 {
    fn try_clone(&self) -> (r: Result<Self, AllocError>)
        ensures
            r == Ok::<u32, AllocError>(*self),
    {
        Ok(*self)
    }
}

impl TryClone for u64 {
    fn try_clone(&self) -> (r: Result<Self, AllocError>)
        ensures
            r == Ok::<u64, AllocError>(*self),
    {
        Ok(*self)
    }
}

impl TryClone for usize {
    fn try_clone(&self) -> (r: Result<Self, AllocError>)
        ensures
            r == Ok::<usize, AllocError>(*self),
    {
        Ok(*self)
    }
}

impl TryClone for i32 {
    fn try_clone(&self) -> (r: Result<Self, AllocError>)
        ensures
            r == Ok::<i32, AllocError>(*self),
    {
        Ok(*self)
    }
}

impl TryClone for i64 {
    fn try_clone(&self) -> (r: Result<Self, AllocError>)
        ensures
            r == Ok::<i64, AllocError>(*self),
    {
        Ok(*self)
    }
}

impl TryClone for bool {
    fn try_clone(&self) -> (r: Result<Self, AllocError>)
        ensures
            r == Ok::<bool, AllocError>(*self),
    {
        Ok(*self)
    }
}

impl TryClone for char {
    fn try_clone(&self) -> (r: Result<Self, AllocError>)
        ensures
            r == Ok::<char, AllocError>(*self),
    {
        Ok(*self)
    }
}

/// Each element of `out` is a result that `try_clone` can give for the
/// element of `src` at the same place.
pub open spec fn all_try_cloned<T: TryClone>(src: Seq<T>, out: Seq<T>) -> bool {
    &&& out.len() == src.len()
    &&& forall|i: int| 0 <= i < src.len() ==> try_cloned(src[i], Ok(#[trigger] out[i]))
}

/// `out` is `src` cloned into `dst`: an element of `src` that `dst` has a
/// place for is cloned in place of the element there (`try_clone_from`),
/// the others are cloned anew.
pub open spec fn cloned_into<T: TryClone>(dst: Seq<T>, src: Seq<T>, out: Seq<T>) -> bool {
    &&& out.len() == src.len()
    &&& forall|i: int| 0 <= i < src.len() && i < dst.len() ==> try_cloned_from(dst[i], src[i], Ok(#[trigger] out[i]))
    &&& forall|i: int| dst.len() <= i < src.len() ==> try_cloned(src[i], Ok(#[trigger] out[i]))
}

impl<T: TryClone> TryClone for Vec<T> {
    fn try_clone(&self) -> (r: Result<Self, AllocError>)
        ensures
            r matches Ok(v) ==> all_try_cloned(self@, v@),
            self@.len() == 0 ==> r is Ok,
    {
        try_clone_slice_to_vec(self.as_slice())
    }

    fn try_clone_from(self, source: &Self) -> (r: Result<Self, AllocError>)
        ensures
            r matches Ok(v) ==> cloned_into(self@, source@, v@),
    {
        try_clone_slice_into_vec(self, source.as_slice())
    }
}

impl<T: TryClone> TryClone for VecDeque<T> {
    fn try_clone(&self) -> (r: Result<Self, AllocError>)
        ensures
            r matches Ok(q) ==> all_try_cloned(self@, q@),
            self@.len() == 0 ==> r is Ok,
    {
        let mut q = match <VecDeque<T> as TryVecDeque<T>>::try_with_capacity(self.len()) {
            Ok(q) => q,
            Err(e) => {
                return Err(e);
            },
        };
        let mut i: usize = 0;
        while i < self.len()
            invariant
                i <= self@.len(),
                q@.len() == i,
                forall|j: int| 0 <= j < i ==> try_cloned(self@[j], Ok(#[trigger] q@[j])),
            decreases self@.len() - i,
        {
            let c = match self[i].try_clone() {
                Ok(c) => c,
                Err(e) => {
                    return Err(e);
                },
            };
            q.push_back(c);
            i = i + 1;
        }
        Ok(q)
    }
}

impl<T: TryClone> TryClone for Option<T> {
    fn try_clone(&self) -> (r: Result<Self, AllocError>)
        ensures
            self is None ==> r == Ok::<Option<T>, AllocError>(None),
            r matches Ok(v) ==> (v is Some <==> self is Some),
            match (*self, r) {
                (Some(t), Ok(Some(v))) => try_cloned(t, Ok(v)),
                (Some(t), Err(e)) => try_cloned(t, Err(e)),
                (Some(_), Ok(None)) => false,
                _ => true,
            },
    {
        match self {
            Some(t) => match t.try_clone() {
                Ok(v) => Ok(Some(v)),
                Err(e) => Err(e),
            },
            None => Ok(None),
        }
    }

    /// Either side empty gives an empty option; else the value is cloned
    /// from the source's in place of this one's.
    fn try_clone_from(self, source: &Self) -> (r: Result<Self, AllocError>)
        ensures
            (self is None || source is None) ==> r == Ok::<Option<T>, AllocError>(None),
            r matches Ok(v) ==> (v is Some <==> (self is Some && source is Some)),
            match (self, *source, r) {
                (Some(dst), Some(src), Ok(Some(v))) => try_cloned_from(dst, src, Ok(v)),
                (Some(dst), Some(src), Err(e)) => try_cloned_from(dst, src, Err(e)),
                (Some(_), Some(_), Ok(None)) => false,
                _ => true,
            },
    {
        match (self, source) {
            (Some(dst), Some(src)) => match dst.try_clone_from(src) {
                Ok(v) => Ok(Some(v)),
                Err(e) => Err(e),
            },
            _ => Ok(None),
        }
    }
}

impl<T: TryClone, E: TryClone> TryClone for Result<T, E> {
    /// The value or the error cloned by its own `try_clone`; a failure of
    /// that clone passed on.
    fn try_clone(&self) -> (r: Result<Self, AllocError>)
        ensures
            r matches Ok(v) ==> (v is Ok <==> self is Ok),
            match (*self, r) {
                (Ok(t), Ok(Ok(v))) => try_cloned(t, Ok(v)),
                (Ok(t), Err(e)) => try_cloned(t, Err(e)),
                (Err(x), Ok(Err(v))) => try_cloned(x, Ok(v)),
                (Err(x), Err(e)) => try_cloned(x, Err(e)),
                _ => false,
            },
    {
        match self {
            Ok(t) => match t.try_clone() {
                Ok(v) => Ok(Ok(v)),
                Err(e) => Err(e),
            },
            Err(x) => match x.try_clone() {
                Ok(v) => Ok(Err(v)),
                Err(e) => Err(e),
            },
        }
    }

    /// A copy of the source: a value or an error as the source holds,
    /// cloned in place of this one's where both are of the same kind.
    fn try_clone_from(self, source: &Self) -> (r: Result<Self, AllocError>)
        ensures
            r matches Ok(v) ==> (v is Ok <==> source is Ok),
            match (self, *source, r) {
                (Ok(dst), Ok(src), Ok(Ok(v))) => try_cloned_from(dst, src, Ok(v)),
                (Ok(dst), Ok(src), Err(e)) => try_cloned_from(dst, src, Err(e)),
                (Ok(_), Err(x), Ok(Err(v))) => try_cloned(x, Ok(v)),
                (Ok(_), Err(x), Err(e)) => try_cloned(x, Err(e)),
                (Err(_), Ok(t), Ok(Ok(v))) => try_cloned(t, Ok(v)),
                (Err(_), Ok(t), Err(e)) => try_cloned(t, Err(e)),
                (Err(dst), Err(src), Ok(Err(v))) => try_cloned_from(dst, src, Ok(v)),
                (Err(dst), Err(src), Err(e)) => try_cloned_from(dst, src, Err(e)),
                _ => false,
            },
    {
        match (self, source) {
            (Ok(dst), Ok(src)) => match dst.try_clone_from(src) {
                Ok(v) => Ok(Ok(v)),
                Err(e) => Err(e),
            },
            (Ok(_), Err(x)) => match x.try_clone() {
                Ok(v) => Ok(Err(v)),
                Err(e) => Err(e),
            },
            (Err(_), Ok(t)) => match t.try_clone() {
                Ok(v) => Ok(Ok(v)),
                Err(e) => Err(e),
            },
            (Err(dst), Err(src)) => match dst.try_clone_from(src) {
                Ok(v) => Ok(Err(v)),
                Err(e) => Err(e),
            },
        }
    }
}

impl TryClone for String {
    fn try_clone(&self) -> (r: Result<Self, AllocError>)
        ensures
            r matches Ok(t) ==> t@ == self@,
            self@.len() == 0 ==> r is Ok,
    {
        try_clone_str_to_string(self.as_str())
    }

    fn try_clone_from(self, source: &Self) -> (r: Result<Self, AllocError>)
        ensures
            r matches Ok(t) ==> t@ == source@,
            encode_utf8(source@).len() <= encode_utf8(self@).len() <= usize::MAX ==> r is Ok,
    {
        try_clone_str_into_string(self, source.as_str())
    }
}

/// `vec` made a copy of `source`: its elements are cloned in place from
/// those of `source`, the surplus dropped and the rest cloned and appended.
pub fn try_clone_slice_into_vec<T: TryClone>(vec: Vec<T>, source: &[T]) -> (r: Result<Vec<T>, AllocError>)
    ensures
        r matches Ok(v) ==> cloned_into(vec@, source@, v@),
{
    let ghost v0 = vec@;
    let mut vec = vec;
    vec.truncate(source.len());
    if source.len() > vec.len() {
        let extra = source.len() - vec.len();
        match vec.try_reserve(extra) {
            Ok(_) => {},
            Err(_) => {
                return Err(AllocError);
            },
        }
    }
    let n = vec.len();
    let ghost d0 = vec@;
    proof {
        assert(n <= source@.len());
        assert(forall|j: int| 0 <= j < n ==> d0[j] == v0[j]);
        assert(n == source@.len() || n == v0.len());
    }
    let mut i: usize = 0;
    while i < n
        invariant
            n == vec@.len(),
            n == d0.len(),
            n <= source@.len(),
            i <= n,
            forall|j: int| 0 <= j < n ==> d0[j] == v0[j],
            forall|j: int| 0 <= j < i ==> try_cloned_from(d0[j], source@[j], Ok(#[trigger] vec@[j])),
            forall|j: int| i <= j < n ==> #[trigger] vec@[j] == d0[j],
        decreases n - i,
    {
        let ghost before = vec@;
        let e = vec.remove(i);
        let c = match e.try_clone_from(&source[i]) {
            Ok(c) => c,
            Err(err) => {
                return Err(err);
            },
        };
        vec.insert(i, c);
        proof {
            assert forall|j: int| 0 <= j < n && j != i implies #[trigger] vec@[j] == before[j] by {
                if j < i {
                } else {
                }
            }
        }
        i = i + 1;
    }
    while i < source.len()
        invariant
            n <= i <= source@.len(),
            vec@.len() == i,
            n == d0.len(),
            forall|j: int| 0 <= j < n ==> d0[j] == v0[j],
            forall|j: int| 0 <= j < n ==> try_cloned_from(d0[j], source@[j], Ok(#[trigger] vec@[j])),
            forall|j: int| n <= j < i ==> try_cloned(source@[j], Ok(#[trigger] vec@[j])),
        decreases source@.len() - i,
    {
        let c = match source[i].try_clone() {
            Ok(c) => c,
            Err(err) => {
                return Err(err);
            },
        };
        vec.push(c);
        i = i + 1;
    }
    Ok(vec)
}

/// A vector holding a clone of each element of the slice.
pub fn try_clone_slice_to_vec<T: TryClone>(s: &[T]) -> (r: Result<Vec<T>, AllocError>)
    ensures
        r matches Ok(v) ==> all_try_cloned(s@, v@),
        s@.len() == 0 ==> r is Ok,
{
    let mut v: Vec<T> = match <Vec<T> as TryVec<T>>::try_with_capacity(s.len()) {
        Ok(v) => v,
        Err(e) => {
            return Err(e);
        },
    };
    let mut i: usize = 0;
    while i < s.len()
        invariant
            i <= s@.len(),
            v@.len() == i,
            forall|j: int| 0 <= j < i ==> try_cloned(s@[j], Ok(#[trigger] v@[j])),
        decreases s@.len() - i,
    {
        let c = match s[i].try_clone() {
            Ok(c) => c,
            Err(e) => {
                return Err(e);
            },
        };
        v.push(c);
        i = i + 1;
    }
    Ok(v)
}

/// A string holding a copy of `s`.
pub fn try_clone_str_to_string(s: &str) -> (r: Result<String, AllocError>)
    ensures
        r matches Ok(t) ==> t@ == s@,
        s@.len() == 0 ==> r is Ok,
{
    proof {
        if s@.len() == 0 {
            assert(encode_utf8(s@).len() == 0);
        }
    }
    let mut string = match <String as TryString>::try_with_capacity(s.len()) {
        Ok(t) => t,
        Err(e) => {
            return Err(e);
        },
    };
    string_push_str(&mut string, s);
    proof {
        assert(string@ =~= s@);
    }
    Ok(string)
}

/// `string` made a copy of `source`, after room for it was reserved.
pub fn try_clone_str_into_string(string: String, source: &str) -> (r: Result<String, AllocError>)
    ensures
        r matches Ok(t) ==> t@ == source@,
        encode_utf8(source@).len() <= encode_utf8(string@).len() <= usize::MAX ==> r is Ok,
{
    let mut string = string;
    let have = string.as_str().len();
    if source.len() > have {
        match string_try_reserve(&mut string, source.len() - have) {
            Ok(()) => {},
            Err(e) => {
                return Err(e);
            },
        }
    }
    str_clone_into(source, &mut string);
    Ok(string)
}

/// An owned copy of a borrowed value that reports a failed allocation
/// instead of aborting.
pub trait TryToOwned {
    type Owned;

    /// An owned copy of `self`.
    fn try_to_owned(&self) -> (r: Result<Self::Owned, AllocError>);

    /// `target` made an owned copy of `self`.
    fn try_clone_into(&self, target: Self::Owned) -> (r: Result<Self::Owned, AllocError>);
}

impl<T: TryClone> TryToOwned for T {
    type Owned = T;

    fn try_to_owned(&self) -> (r: Result<T, AllocError>)
        ensures
            try_cloned(*self, r),
    {
        self.try_clone()
    }

    fn try_clone_into(&self, target: T) -> (r: Result<T, AllocError>)
        ensures
            try_cloned_from(target, *self, r),
    {
        target.try_clone_from(self)
    }
}

impl<T: TryClone> TryToOwned for [T] {
    type Owned = Vec<T>;

    fn try_to_owned(&self) -> (r: Result<Vec<T>, AllocError>)
        ensures
            r matches Ok(v) ==> all_try_cloned(self@, v@),
            self@.len() == 0 ==> r is Ok,
    {
        try_clone_slice_to_vec(self)
    }

    fn try_clone_into(&self, target: Vec<T>) -> (r: Result<Vec<T>, AllocError>)
        ensures
            r matches Ok(v) ==> cloned_into(target@, self@, v@),
    {
        try_clone_slice_into_vec(target, self)
    }
}

impl TryToOwned for str {
    type Owned = String;

    fn try_to_owned(&self) -> (r: Result<String, AllocError>)
        ensures
            r matches Ok(t) ==> t@ == self@,
            self@.len() == 0 ==> r is Ok,
    {
        try_clone_str_to_string(self)
    }

    fn try_clone_into(&self, target: String) -> (r: Result<String, AllocError>)
        ensures
            r matches Ok(t) ==> t@ == self@,
            encode_utf8(self@).len() <= encode_utf8(target@).len() <= usize::MAX ==> r is Ok,
    {
        try_clone_str_into_string(target, self)
    }
}

} // verus!
