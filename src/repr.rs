use vstd::prelude::*;

use crate::error::CenumError;

verus! {

/// The fixed-width integer types that a C-style enum can be converted to and from.
#[derive(PartialEq, Eq, Structural, Clone, Copy, Debug)]
pub enum Repr {
    U8,
    U16,
    U32,
    U64,
    U128,
    I8,
    I16,
    I32,
    I64,
    I128,
}

/// The representation named by `s`, if any.
pub open spec fn repr_of_name(s: Seq<char>) -> Option<Repr> {
    if s == seq!['u', '8'] {
        Some(Repr::U8)
    } else if s == seq!['u', '1', '6'] {
        Some(Repr::U16)
    } else if s == seq!['u', '3', '2'] {
        Some(Repr::U32)
    } else if s == seq!['u', '6', '4'] {
        Some(Repr::U64)
    } else if s == seq!['u', '1', '2', '8'] {
        Some(Repr::U128)
    } else if s == seq!['i', '8'] {
        Some(Repr::I8)
    } else if s == seq!['i', '1', '6'] {
        Some(Repr::I16)
    } else if s == seq!['i', '3', '2'] {
        Some(Repr::I32)
    } else if s == seq!['i', '6', '4'] {
        Some(Repr::I64)
    } else if s == seq!['i', '1', '2', '8'] {
        Some(Repr::I128)
    } else {
        None
    }
}

impl Repr {
    /// The smallest value of the representation.
    pub open spec fn min_value(self) -> int {
        match self {
            Repr::U8 | Repr::U16 | Repr::U32 | Repr::U64 | Repr::U128 => 0,
            Repr::I8 => i8::MIN as int,
            Repr::I16 => i16::MIN as int,
            Repr::I32 => i32::MIN as int,
            Repr::I64 => i64::MIN as int,
            Repr::I128 => i128::MIN as int,
        }
    }

    /// The largest value of the representation.
    pub open spec fn max_value(self) -> int {
        match self {
            Repr::U8 => u8::MAX as int,
            Repr::U16 => u16::MAX as int,
            Repr::U32 => u32::MAX as int,
            Repr::U64 => u64::MAX as int,
            Repr::U128 => u128::MAX as int,
            Repr::I8 => i8::MAX as int,
            Repr::I16 => i16::MAX as int,
            Repr::I32 => i32::MAX as int,
            Repr::I64 => i64::MAX as int,
            Repr::I128 => i128::MAX as int,
        }
    }

    /// Whether `v` lies between the smallest and the largest value of the representation.
    pub open spec fn holds(self, v: int) -> bool {
        self.min_value() <= v <= self.max_value()
    }

    /// Whether `v` is a value of the representation.
    pub fn contains(self, v: i128) -> (r: bool)
        ensures
            r == self.holds(v as int),
    {
        match self {
            Repr::U8 => 0 <= v && v <= 0xff,
            Repr::U16 => 0 <= v && v <= 0xffff,
            Repr::U32 => 0 <= v && v <= 0xffff_ffff,
            Repr::U64 => 0 <= v && v <= 0xffff_ffff_ffff_ffff,
            Repr::U128 => 0 <= v,
            Repr::I8 => -0x80 <= v && v <= 0x7f,
            Repr::I16 => -0x8000 <= v && v <= 0x7fff,
            Repr::I32 => -0x8000_0000 <= v && v <= 0x7fff_ffff,
            Repr::I64 => -0x8000_0000_0000_0000 <= v && v <= 0x7fff_ffff_ffff_ffff,
            Repr::I128 => true,
        }
    }

    /// The representation whose type name is `s`, as in `u8` or `i128`.
    pub fn from_name(s: &str) -> (r: Option<Repr>)
        ensures
            r == repr_of_name(s@),
    {
        proof {
            reveal_strlit("u8");
            assert("u8"@ =~= seq!['u', '8']);
            reveal_strlit("u16");
            assert("u16"@ =~= seq!['u', '1', '6']);
            reveal_strlit("u32");
            assert("u32"@ =~= seq!['u', '3', '2']);
            reveal_strlit("u64");
            assert("u64"@ =~= seq!['u', '6', '4']);
            reveal_strlit("u128");
            assert("u128"@ =~= seq!['u', '1', '2', '8']);
            reveal_strlit("i8");
            assert("i8"@ =~= seq!['i', '8']);
            reveal_strlit("i16");
            assert("i16"@ =~= seq!['i', '1', '6']);
            reveal_strlit("i32");
            assert("i32"@ =~= seq!['i', '3', '2']);
            reveal_strlit("i64");
            assert("i64"@ =~= seq!['i', '6', '4']);
            reveal_strlit("i128");
            assert("i128"@ =~= seq!['i', '1', '2', '8']);
        }
        if chars_equal(s, "u8") {
            Some(Repr::U8)
        } else if chars_equal(s, "u16") {
            Some(Repr::U16)
        } else if chars_equal(s, "u32") {
            Some(Repr::U32)
        } else if chars_equal(s, "u64") {
            Some(Repr::U64)
        } else if chars_equal(s, "u128") {
            Some(Repr::U128)
        } else if chars_equal(s, "i8") {
            Some(Repr::I8)
        } else if chars_equal(s, "i16") {
            Some(Repr::I16)
        } else if chars_equal(s, "i32") {
            Some(Repr::I32)
        } else if chars_equal(s, "i64") {
            Some(Repr::I64)
        } else if chars_equal(s, "i128") {
            Some(Repr::I128)
        } else {
            None
        }
    }
}

/// An attribute attached to an enum declaration: the segments of its path
/// and the text of the tokens that follow the path.
pub struct Attr {
    pub path: Vec<String>,
    pub tokens: String,
}

/// A representation directive: a single-segment path `repr` followed by a
/// parenthesised argument.
pub open spec fn is_repr_directive(a: Attr) -> bool {
    &&& a.path@.len() == 1
    &&& a.path@[0]@ == seq!['r', 'e', 'p', 'r']
    &&& a.tokens@.len() >= 2
    &&& a.tokens@[0] == '('
    &&& a.tokens@.last() == ')'
}

/// The text between the parentheses of a representation directive.
pub open spec fn directive_arg(a: Attr) -> Seq<char> {
    a.tokens@.subrange(1, a.tokens@.len() - 1)
}

/// A representation directive that names no supported integer type.
pub open spec fn is_invalid_directive(a: Attr) -> bool {
    is_repr_directive(a) && repr_of_name(directive_arg(a)) is None
}

/// The representation that the last valid directive names; unsigned 32-bit
/// where there is none.
pub open spec fn declared_repr(attrs: Seq<Attr>) -> Repr
    decreases attrs.len(),
{
    if attrs.len() == 0 {
        Repr::U32
    } else if is_repr_directive(attrs.last()) && repr_of_name(directive_arg(attrs.last())) is Some {
        repr_of_name(directive_arg(attrs.last())).unwrap()
    } else {
        declared_repr(attrs.drop_last())
    }
}

/// The outcome of choosing a representation from an enum's attributes: the
/// first directive that names no supported type is an error, else the
/// declared representation is taken.
pub open spec fn repr_selection(attrs: Seq<Attr>) -> Result<Repr, CenumError> {
    if exists|i: int| 0 <= i < attrs.len() && is_invalid_directive(#[trigger] attrs[i]) {
        let i = choose|i: int|
            0 <= i < attrs.len() && is_invalid_directive(#[trigger] attrs[i]) && forall|j: int|
                0 <= j < i ==> !is_invalid_directive(#[trigger] attrs[j]);
        Err(CenumError::InvalidRepr { attr: i as usize })
    } else {
        Ok(declared_repr(attrs))
    }
}

/// Chooses the representation that conversions use, from the attributes of
/// an enum declaration.
pub fn select_repr(attrs: &Vec<Attr>) -> (r: Result<Repr, CenumError>)
    ensures
        r == repr_selection(attrs@),
{
    proof {
        reveal_strlit("repr");
        assert("repr"@ =~= seq!['r', 'e', 'p', 'r']);
    }
    let mut cur = Repr::U32;
    let mut i: usize = 0;
    while i < attrs.len()
        invariant
            i <= attrs.len(),
            "repr"@ == seq!['r', 'e', 'p', 'r'],
            cur == declared_repr(attrs@.subrange(0, i as int)),
            forall|j: int| 0 <= j < i ==> !is_invalid_directive(#[trigger] attrs@[j]),
        decreases attrs.len() - i,
    {
        let a = &attrs[i];
        let ghost pre = attrs@.subrange(0, i + 1);
        assert(pre.drop_last() =~= attrs@.subrange(0, i as int));
        let tokens = a.tokens.as_str();
        let n = tokens.unicode_len();
        let directive = a.path.len() == 1 && chars_equal(a.path[0].as_str(), "repr") && n >= 2
            && tokens.get_char(0) == '(' && tokens.get_char(n - 1) == ')';
        assert(directive == is_repr_directive(attrs@[i as int]));
        if directive {
            let arg = tokens.substring_char(1, n - 1);
            assert(arg@ == directive_arg(attrs@[i as int]));
            match Repr::from_name(arg) {
                Some(x) => {
                    cur = x;
                },
                None => {
                    proof {
                        assert(is_invalid_directive(attrs@[i as int]));
                        let k = choose|k: int|
                            0 <= k < attrs.len() && is_invalid_directive(#[trigger] attrs@[k])
                                && forall|j: int|
                                0 <= j < k ==> !is_invalid_directive(#[trigger] attrs@[j]);
                        assert(k == i as int) by {
                            if k < i {
                            } else if k > i {
                                assert(!is_invalid_directive(attrs@[i as int]));
                            }
                        }
                    }
                    return Err(CenumError::InvalidRepr { attr: i });
                },
            }
        }
        i = i + 1;
    }
    assert(attrs@.subrange(0, i as int) =~= attrs@);
    Ok(cur)
}

/// Whether the characters of `s` are those of `t`.
fn chars_equal(s: &str, t: &str) -> (r: bool)
    ensures
        r == (s@ == t@),
{
    let n = s.unicode_len();
    if n != t.unicode_len() {
        return false;
    }
    let mut i: usize = 0;
    while i < n
        invariant
            n == s@.len(),
            n == t@.len(),
            i <= n,
            forall|k: int| 0 <= k < i ==> s@[k] == t@[k],
        decreases n - i,
    {
        if s.get_char(i) != t.get_char(i) {
            return false;
        }
        i = i + 1;
    }
    assert(s@ =~= t@);
    true
}

} // verus!
