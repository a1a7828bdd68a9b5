use vstd::prelude::*;

use vstd::utf8::{decode_utf8, encode_utf8, valid_utf8};

use crate::fs::dirent::{utf8_lossy, utf8_lossy_to_string};
use crate::try_alloc::AllocError;

verus! {

/// `String::try_reserve`: reserves room for `additional` more bytes and
/// leaves the text alone. Asked for no room it does nothing and succeeds,
/// the capacity being already sufficient; whether the allocator can give
/// more is not stated.
#[verifier::external_body]
pub(crate) fn string_try_reserve(s: &mut String, additional: usize) -> (r: Result<(), AllocError>)
    ensures
        final(s)@ == old(s)@,
        additional == 0 ==> r is Ok,
{
    match s.try_reserve(additional) {
        Ok(()) => Ok(()),
        Err(_) => Err(AllocError),
    }
}

/// `String::push`: appends `c`.
#[verifier::external_body]
fn string_push(s: &mut String, c: char)
    ensures
        final(s)@ == old(s)@.push(c),
{
    s.push(c)
}

/// `String::push_str`: appends `t`.
#[verifier::external_body]
pub(crate) fn string_push_str(s: &mut String, t: &str)
    ensures
        final(s)@ == old(s)@ + t@,
{
    s.push_str(t)
}

/// `str::clone_into`: makes `target` a copy of `source`.
#[verifier::external_body]
pub(crate) fn str_clone_into(source: &str, target: &mut String)
    ensures
        final(target)@ == source@,
{
    source.clone_into(target)
}

/// The number of bytes of `c` in UTF-8.
pub open spec fn spec_utf8_len(c: char) -> usize {
    if (c as u32) < 0x80 {
        1
    } else if (c as u32) < 0x800 {
        2
    } else if (c as u32) < 0x10000 {
        3
    } else {
        4
    }
}

/// The number of bytes of `c` in UTF-8.
pub fn utf8_len(c: char) -> (r: usize)
    ensures
        r == spec_utf8_len(c),
{
    let x = c as u32;
    if x < 0x80 {
        1
    } else if x < 0x800 {
        2
    } else if x < 0x10000 {
        3
    } else {
        4
    }
}

/// Building a string that reports a failed allocation instead of aborting.
pub trait TryString: Sized {
    /// An empty string with room for `capacity` bytes.
    fn try_with_capacity(capacity: usize) -> (r: Result<Self, AllocError>);

    /// Appends `ch`.
    fn try_push(&mut self, ch: char) -> (r: Result<(), AllocError>);

    /// Appends `string`.
    fn try_push_str(&mut self, string: &str) -> (r: Result<(), AllocError>);

    /// The text of `v`, each invalid sequence replaced by U+FFFD.
    fn try_from_utf8_lossy(v: &[u8]) -> (r: Result<Self, AllocError>);
}

impl TryString for String {
    fn try_with_capacity(capacity: usize) -> (r: Result<Self, AllocError>)
        ensures
            r matches Ok(s) ==> s@ == Seq::<char>::empty(),
            capacity == 0 ==> r is Ok,
    {
        let mut s = String::new();
        match string_try_reserve(&mut s, capacity) {
            Ok(()) => Ok(s),
            Err(e) => Err(e),
        }
    }

    fn try_push(&mut self, ch: char) -> (r: Result<(), AllocError>)
        ensures
            r is Ok ==> final(self)@ == old(self)@.push(ch),
            r is Err ==> final(self)@ == old(self)@,
    {
        match string_try_reserve(self, utf8_len(ch)) {
            Ok(()) => {
                string_push(self, ch);
                Ok(())
            },
            Err(e) => Err(e),
        }
    }

    fn try_push_str(&mut self, string: &str) -> (r: Result<(), AllocError>)
        ensures
            r is Ok ==> final(self)@ == old(self)@ + string@,
            r is Err ==> final(self)@ == old(self)@,
            string@.len() == 0 ==> r is Ok,
    {
        proof {
            if string@.len() == 0 {
                assert(encode_utf8(string@).len() == 0);
            }
        }
        match string_try_reserve(self, string.len()) {
            Ok(()) => {
                string_push_str(self, string);
                Ok(())
            },
            Err(e) => Err(e),
        }
    }

    fn try_from_utf8_lossy(v: &[u8]) -> (r: Result<Self, AllocError>)
        ensures
            r matches Ok(s) ==> s@ == utf8_lossy(v@),
            r matches Ok(s) ==> (valid_utf8(v@) ==> s@ == decode_utf8(v@)),
            v@.len() == 0 ==> r is Ok,
    {
        let mut res = match <String as TryString>::try_with_capacity(v.len()) {
            Ok(s) => s,
            Err(e) => {
                return Err(e);
            },
        };
        let text = utf8_lossy_to_string(v);
        proof {
            if v@.len() == 0 {
                assert(v@ =~= Seq::<u8>::empty());
                assert(valid_utf8(v@));
                assert(text@ =~= Seq::<char>::empty());
            }
        }
        match res.try_push_str(text.as_str()) {
            Ok(()) => {
                assert(res@ =~= text@);
                Ok(res)
            },
            Err(e) => Err(e),
        }
    }
}

/// The decimal digits of `x`, most significant first, as `Display` writes them.
pub open spec fn decimal_text(x: nat) -> Seq<char>
    decreases x,
{
    if x < 10 {
        seq![(48 + x) as char]
    } else {
        decimal_text(x / 10).push((48 + x % 10) as char)
    }
}

/// The text `Display` writes for the integer `x`: a minus sign for a
/// negative number, then the decimal digits.
pub open spec fn integer_text(x: int) -> Seq<char> {
    if x < 0 {
        seq!['-'] + decimal_text((-x) as nat)
    } else {
        decimal_text(x as nat)
    }
}

/// Appends the decimal digits of `x`.
fn try_push_decimal(s: &mut String, x: u64) -> (r: Result<(), AllocError>)
    ensures
        r is Ok ==> final(s)@ == old(s)@ + decimal_text(x as nat),
    decreases x,
{
    if x >= 10 {
        match try_push_decimal(s, x / 10) {
            Ok(()) => {},
            Err(e) => {
                return Err(e);
            },
        }
    }
    let d = (48 + x % 10) as u8;
    let c = d as char;
    let r = s.try_push(c);
    proof {
        assert(c == (48 + x % 10) as char);
    }
    r
}

/// The text of a value, as its `Display` writes it, built with allocations
/// that report failure instead of aborting.
pub trait TryToString {
    fn try_to_string(&self) -> (r: Result<String, AllocError>);
}

impl TryToString for u64 {
    fn try_to_string(&self) -> (r: Result<String, AllocError>)
        ensures
            r matches Ok(t) ==> t@ == integer_text(*self as int),
    {
        let mut s = String::new();
        match try_push_decimal(&mut s, *self) {
            Ok(()) => Ok(s),
            Err(e) => Err(e),
        }
    }
}

impl TryToString for u32 {
    fn try_to_string(&self) -> (r: Result<String, AllocError>)
        ensures
            r matches Ok(t) ==> t@ == integer_text(*self as int),
    {
        let mut s = String::new();
        match try_push_decimal(&mut s, *self as u64) {
            Ok(()) => Ok(s),
            Err(e) => Err(e),
        }
    }
}

impl TryToString for usize {
    fn try_to_string(&self) -> (r: Result<String, AllocError>)
        ensures
            r matches Ok(t) ==> t@ == integer_text(*self as int),
    {
        let mut s = String::new();
        match try_push_decimal(&mut s, *self as u64) {
            Ok(()) => Ok(s),
            Err(e) => Err(e),
        }
    }
}

impl TryToString for i64 {
    fn try_to_string(&self) -> (r: Result<String, AllocError>)
        ensures
            r matches Ok(t) ==> t@ == integer_text(*self as int),
    {
        let x = *self;
        let mut s = String::new();
        let magnitude: u64 = if x >= 0 {
            x as u64
        } else if x == i64::MIN {
            9223372036854775808u64
        } else {
            (-x) as u64
        };
        if x < 0 {
            match s.try_push('-') {
                Ok(()) => {},
                Err(e) => {
                    return Err(e);
                },
            }
        }
        match try_push_decimal(&mut s, magnitude) {
            Ok(()) => {
                proof {
                    if x < 0 {
                        assert(s@ =~= seq!['-'] + decimal_text((-x) as nat));
                    } else {
                        assert(s@ =~= decimal_text(x as nat));
                    }
                }
                Ok(s)
            },
            Err(e) => Err(e),
        }
    }
}

impl TryToString for i32 {
    fn try_to_string(&self) -> (r: Result<String, AllocError>)
        ensures
            r matches Ok(t) ==> t@ == integer_text(*self as int),
    {
        (*self as i64).try_to_string()
    }
}

impl TryToString for bool {
    fn try_to_string(&self) -> (r: Result<String, AllocError>)
        ensures
            r matches Ok(t) ==> t@ == if *self {
                seq!['t', 'r', 'u', 'e']
            } else {
                seq!['f', 'a', 'l', 's', 'e']
            },
    {
        let mut s = String::new();
        let text = if *self {
            "true"
        } else {
            "false"
        };
        proof {
            reveal_strlit("true");
            reveal_strlit("false");
        }
        match s.try_push_str(text) {
            Ok(()) => {
                proof {
                    if *self {
                        assert(s@ =~= seq!['t', 'r', 'u', 'e']);
                    } else {
                        assert(s@ =~= seq!['f', 'a', 'l', 's', 'e']);
                    }
                }
                Ok(s)
            },
            Err(e) => Err(e),
        }
    }
}

impl TryToString for char {
    fn try_to_string(&self) -> (r: Result<String, AllocError>)
        ensures
            r matches Ok(t) ==> t@ == seq![*self],
    {
        let mut s = String::new();
        match s.try_push(*self) {
            Ok(()) => {
                proof {
                    assert(s@ =~= seq![*self]);
                }
                Ok(s)
            },
            Err(e) => Err(e),
        }
    }
}

impl TryToString for str {
    fn try_to_string(&self) -> (r: Result<String, AllocError>)
        ensures
            r matches Ok(t) ==> t@ == self@,
            self@.len() == 0 ==> r is Ok,
    {
        let mut s = String::new();
        match s.try_push_str(self) {
            Ok(()) => {
                proof {
                    assert(s@ =~= self@);
                }
                Ok(s)
            },
            Err(e) => Err(e),
        }
    }
}

impl TryToString for String {
    fn try_to_string(&self) -> (r: Result<String, AllocError>)
        ensures
            r matches Ok(t) ==> t@ == self@,
            self@.len() == 0 ==> r is Ok,
    {
        self.as_str().try_to_string()
    }
}

} // verus!
