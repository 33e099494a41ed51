use vstd::prelude::*;

use crate::error::CenumError;
use crate::repr::{is_repr_directive, repr_selection, select_repr, Attr, Repr};
use crate::resolve::{
    lemma_resolution_increasing, resolution, resolve_discriminants, strictly_increasing,
    VariantDecl,
};

verus! {

/// An enum declaration: its name, its attributes and its variants in order.
pub struct EnumDecl {
    pub name: String,
    pub attrs: Vec<Attr>,
    pub variants: Vec<VariantDecl>,
}

pub open spec fn all_unit(vs: Seq<VariantDecl>) -> bool {
    forall|i: int| 0 <= i < vs.len() ==> (#[trigger] vs[i]).unit
}

/// The discriminants, unless one is not a value of the representation: then
/// the first such variant is refused.
pub open spec fn fit_to_repr(repr: Repr, ds: Seq<i128>) -> Result<Seq<i128>, CenumError> {
    if exists|i: int| 0 <= i < ds.len() && !repr.holds(#[trigger] ds[i] as int) {
        let i = choose|i: int|
            0 <= i < ds.len() && !repr.holds(#[trigger] ds[i] as int) && forall|j: int|
                0 <= j < i ==> repr.holds(#[trigger] ds[j] as int);
        Err(CenumError::OutOfRepr { variant: i as usize })
    } else {
        Ok(ds)
    }
}

/// What processing a declaration gives: its representation and the
/// discriminant of each variant, or the first error met. Attributes are read
/// first, then the shape of the variants, then their discriminants in order,
/// and last whether each fits the representation.
pub open spec fn cenum_outcome(d: EnumDecl) -> Result<(Repr, Seq<i128>), CenumError> {
    match repr_selection(d.attrs@) {
        Err(e) => Err(e),
        Ok(repr) => if !all_unit(d.variants@) {
            Err(CenumError::FieldsNotSupported)
        } else {
            match resolution(d.variants@) {
                Err(e) => Err(e),
                Ok(ds) => match fit_to_repr(repr, ds) {
                    Err(e) => Err(e),
                    Ok(ds) => Ok((repr, ds)),
                },
            }
        },
    }
}

/// An enum whose discriminants are resolved: the table from which its two
/// conversions are generated.
pub struct ResolvedEnum {
    name: String,
    repr: Repr,
    names: Vec<String>,
    discriminants: Vec<i128>,
}

impl ResolvedEnum {
    pub closed spec fn spec_name(&self) -> Seq<char> {
        self.name@
    }

    pub closed spec fn spec_repr(&self) -> Repr {
        self.repr
    }

    /// The names of the variants, in declaration order.
    pub closed spec fn spec_names(&self) -> Seq<Seq<char>> {
        self.names@.map_values(|s: String| s@)
    }

    /// The discriminant of each variant, in declaration order.
    pub closed spec fn spec_discriminants(&self) -> Seq<i128> {
        self.discriminants@
    }

    /// One discriminant per variant, increasing in declaration order, each a
    /// value of the representation.
    pub open spec fn wf(&self) -> bool {
        &&& self.spec_names().len() == self.spec_discriminants().len()
        &&& strictly_increasing(self.spec_discriminants())
        &&& forall|i: int|
            0 <= i < self.spec_discriminants().len() ==> self.spec_repr().holds(
                #[trigger] self.spec_discriminants()[i] as int,
            )
    }

    /// The code of the variant at `variant`.
    pub open spec fn spec_into_primitive(&self, variant: int) -> i128 {
        self.spec_discriminants()[variant]
    }

    /// The variant whose code is `value`, if any.
    pub open spec fn spec_from_primitive(&self, value: i128) -> Option<int> {
        let ds = self.spec_discriminants();
        if exists|j: int| 0 <= j < ds.len() && ds[j] == value {
            Some(choose|j: int| 0 <= j < ds.len() && ds[j] == value)
        } else {
            None
        }
    }

    pub fn name(&self) -> (r: &str)
        ensures
            r@ == self.spec_name(),
    {
        self.name.as_str()
    }

    pub fn repr(&self) -> (r: Repr)
        ensures
            r == self.spec_repr(),
    {
        self.repr
    }

    /// The number of variants.
    pub fn len(&self) -> (r: usize)
        ensures
            r == self.spec_discriminants().len(),
    {
        self.discriminants.len()
    }

    /// The name of the variant at `variant`.
    pub fn variant_name(&self, variant: usize) -> (r: &str)
        requires
            self.wf(),
            variant < self.spec_discriminants().len(),
        ensures
            r@ == self.spec_names()[variant as int],
    {
        self.names[variant].as_str()
    }

    /// The position of the variant named `name`, if there is one.
    pub fn variant(&self, name: &str) -> (r: Option<usize>)
        ensures
            match r {
                Some(i) => i < self.spec_names().len() && self.spec_names()[i as int] == name@
                    && forall|j: int| 0 <= j < i ==> self.spec_names()[j] != name@,
                None => forall|j: int|
                    0 <= j < self.spec_names().len() ==> self.spec_names()[j] != name@,
            },
    {
        let mut i: usize = 0;
        while i < self.names.len()
            invariant
                i <= self.names@.len(),
                self.spec_names().len() == self.names@.len(),
                forall|j: int| 0 <= j < i ==> self.spec_names()[j] != name@,
            decreases self.names.len() - i,
        {
            if self.names[i] == name.to_owned() {
                return Some(i);
            }
            i = i + 1;
        }
        None
    }

    /// The code of the variant at `variant`: its discriminant, a value of the
    /// representation.
    pub fn into_primitive(&self, variant: usize) -> (r: i128)
        requires
            self.wf(),
            variant < self.spec_discriminants().len(),
        ensures
            r == self.spec_into_primitive(variant as int),
            self.spec_repr().holds(r as int),
    {
        self.discriminants[variant]
    }

    /// The variant whose code is `value`; `None` where no variant has it.
    pub fn from_primitive(&self, value: i128) -> (r: Option<usize>)
        requires
            self.wf(),
        ensures
            match r {
                Some(i) => self.spec_from_primitive(value) == Some(i as int),
                None => self.spec_from_primitive(value) is None,
            },
    {
        let ghost ds = self.spec_discriminants();
        let mut i: usize = 0;
        while i < self.discriminants.len()
            invariant
                ds == self.discriminants@,
                self.wf(),
                i <= ds.len(),
                forall|j: int| 0 <= j < i ==> ds[j] != value,
            decreases ds.len() - i,
        {
            if self.discriminants[i] == value {
                proof {
                    lemma_code_unique(self, i as int);
                }
                return Some(i);
            }
            i = i + 1;
        }
        None
    }
}

/// Within a well-formed enum no two variants share a code.
proof fn lemma_code_unique(e: &ResolvedEnum, i: int)
    requires
        e.wf(),
        0 <= i < e.spec_discriminants().len(),
    ensures
        e.spec_from_primitive(e.spec_discriminants()[i]) == Some(i),
{
    let ds = e.spec_discriminants();
    let j = choose|j: int| 0 <= j < ds.len() && ds[j] == ds[i];
    if j < i {
        assert(ds[j] < ds[i]);
    } else if j > i {
        assert(ds[i] < ds[j]);
    }
}

/// Converting a variant to its code and back gives the same variant.
pub proof fn lemma_round_trip(e: &ResolvedEnum, variant: int)
    requires
        e.wf(),
        0 <= variant < e.spec_discriminants().len(),
    ensures
        e.spec_from_primitive(e.spec_into_primitive(variant)) == Some(variant),
{
    lemma_code_unique(e, variant);
}

/// Without a representation directive, conversions use unsigned 32-bit codes.
pub proof fn lemma_default_repr(d: EnumDecl)
    requires
        forall|i: int| 0 <= i < d.attrs@.len() ==> !is_repr_directive(#[trigger] d.attrs@[i]),
        cenum_outcome(d) is Ok,
    ensures
        cenum_outcome(d)->Ok_0.0 == Repr::U32,
        forall|i: int|
            0 <= i < cenum_outcome(d)->Ok_0.1.len() ==> 0 <= #[trigger] cenum_outcome(d)->Ok_0.1[i]
                <= u32::MAX,
{
    lemma_default_declared(d.attrs@);
}

proof fn lemma_default_declared(attrs: Seq<Attr>)
    requires
        forall|i: int| 0 <= i < attrs.len() ==> !is_repr_directive(#[trigger] attrs[i]),
    ensures
        crate::repr::declared_repr(attrs) == Repr::U32,
        repr_selection(attrs) == Ok::<Repr, CenumError>(Repr::U32),
    decreases attrs.len(),
{
    if attrs.len() > 0 {
        assert(!is_repr_directive(attrs[attrs.len() - 1]));
        lemma_default_declared(attrs.drop_last());
    }
}

/// Reads a C-style enum declaration: chooses its representation, checks that
/// every variant is a bare tag, resolves the discriminants, and checks that
/// each is a value of the representation.
pub fn cenum(decl: &EnumDecl) -> (r: Result<ResolvedEnum, CenumError>)
    ensures
        match r {
            Ok(e) => {
                &&& e.wf()
                &&& cenum_outcome(*decl) == Ok::<(Repr, Seq<i128>), CenumError>(
                    (e.spec_repr(), e.spec_discriminants()),
                )
                &&& e.spec_name() == decl.name@
                &&& e.spec_names() == decl.variants@.map_values(|v: VariantDecl| v.name@)
            },
            Err(err) => cenum_outcome(*decl) == Err::<(Repr, Seq<i128>), CenumError>(err),
        },
{
    let repr = match select_repr(&decl.attrs) {
        Ok(x) => x,
        Err(e) => {
            return Err(e);
        },
    };
    let mut i: usize = 0;
    while i < decl.variants.len()
        invariant
            i <= decl.variants@.len(),
            repr_selection(decl.attrs@) == Ok::<Repr, CenumError>(repr),
            forall|j: int| 0 <= j < i ==> (#[trigger] decl.variants@[j]).unit,
        decreases decl.variants.len() - i,
    {
        if !decl.variants[i].unit {
            assert(!decl.variants@[i as int].unit);
            return Err(CenumError::FieldsNotSupported);
        }
        i = i + 1;
    }
    let discriminants = match resolve_discriminants(&decl.variants) {
        Ok(ds) => ds,
        Err(e) => {
            return Err(e);
        },
    };
    proof {
        lemma_resolution_increasing(decl.variants@);
    }
    let ghost ds = discriminants@;
    let mut k: usize = 0;
    while k < discriminants.len()
        invariant
            ds == discriminants@,
            repr_selection(decl.attrs@) == Ok::<Repr, CenumError>(repr),
            all_unit(decl.variants@),
            resolution(decl.variants@) == Ok::<Seq<i128>, CenumError>(ds),
            k <= ds.len(),
            forall|j: int| 0 <= j < k ==> repr.holds(#[trigger] ds[j] as int),
        decreases ds.len() - k,
    {
        if !repr.contains(discriminants[k]) {
            proof {
                let m = choose|m: int|
                    0 <= m < ds.len() && !repr.holds(#[trigger] ds[m] as int) && forall|j: int|
                        0 <= j < m ==> repr.holds(#[trigger] ds[j] as int);
                assert(m == k as int) by {
                    if m > k {
                        assert(repr.holds(ds[k as int] as int));
                    }
                }
            }
            return Err(CenumError::OutOfRepr { variant: k });
        }
        k = k + 1;
    }
    let mut names: Vec<String> = Vec::new();
    let mut n: usize = 0;
    while n < decl.variants.len()
        invariant
            n <= decl.variants@.len(),
            ds == discriminants@,
            repr_selection(decl.attrs@) == Ok::<Repr, CenumError>(repr),
            all_unit(decl.variants@),
            resolution(decl.variants@) == Ok::<Seq<i128>, CenumError>(ds),
            strictly_increasing(ds),
            ds.len() == decl.variants@.len(),
            forall|j: int| 0 <= j < ds.len() ==> repr.holds(#[trigger] ds[j] as int),
            names@.len() == n,
            forall|j: int| 0 <= j < n ==> (#[trigger] names@[j])@ == decl.variants@[j].name@,
        decreases decl.variants.len() - n,
    {
        names.push(decl.variants[n].name.clone());
        n = n + 1;
    }
    let e = ResolvedEnum { name: decl.name.clone(), repr, names, discriminants };
    assert(e.spec_names() =~= decl.variants@.map_values(|v: VariantDecl| v.name@));
    Ok(e)
}

} // verus!
