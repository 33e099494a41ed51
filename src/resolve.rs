use vstd::prelude::*;

use crate::decimal::{decimal_value, is_decimal, lemma_value_nonneg, parse_decimal};
use crate::error::CenumError;

verus! {

/// The expression written as a variant's explicit discriminant.
pub enum DiscriminantExpr {
    /// An integer literal, as its decimal digits (base prefix, suffix and
    /// underscores already taken off).
    Int(String),
    /// A unary minus applied to an expression.
    Neg(Box<DiscriminantExpr>),
    /// Any other expression.
    Other,
}

/// One declared variant of an enum.
pub struct VariantDecl {
    pub name: String,
    /// Whether the variant is a bare tag, without fields.
    pub unit: bool,
    pub discriminant: Option<DiscriminantExpr>,
}

/// The digits of an accepted discriminant expression, and whether it is negated:
/// a literal, or a literal under one unary minus.
pub open spec fn literal_digits(e: DiscriminantExpr) -> Option<(bool, Seq<char>)> {
    match e {
        DiscriminantExpr::Int(d) => Some((false, d@)),
        DiscriminantExpr::Neg(inner) => match *inner {
            DiscriminantExpr::Int(d) => Some((true, d@)),
            _ => None,
        },
        DiscriminantExpr::Other => None,
    }
}

/// The value of the explicit discriminant of the variant at `index`.
pub open spec fn explicit_value(e: DiscriminantExpr, index: int) -> Result<int, CenumError> {
    match literal_digits(e) {
        None => Err(CenumError::ExpectedIntegerLiteral { variant: index as usize }),
        Some((negated, d)) => if !is_decimal(d) {
            Err(CenumError::ExpectedIntegerLiteral { variant: index as usize })
        } else if decimal_value(d) > i128::MAX {
            Err(CenumError::LiteralOutOfRange { variant: index as usize })
        } else if negated {
            Ok(-decimal_value(d))
        } else {
            Ok(decimal_value(d))
        },
    }
}

/// An accepted explicit discriminant fits in an `i128`.
pub proof fn lemma_explicit_in_range(e: DiscriminantExpr, index: int)
    requires
        explicit_value(e, index) is Ok,
    ensures
        i128::MIN < explicit_value(e, index)->Ok_0 <= i128::MAX,
{
    let (_, d) = literal_digits(e)->Some_0;
    lemma_value_nonneg(d);
}

/// The value that the next variant takes when it has no explicit
/// discriminant: zero first, then one more than the previous variant's.
pub open spec fn next_implicit(prev: Seq<i128>) -> int {
    if prev.len() == 0 {
        0
    } else {
        prev.last() + 1
    }
}

/// The discriminant of variant `v`, declared at `index` after variants whose
/// discriminants are `prev`. An explicit value is checked against the running
/// counter, except on the first variant.
pub open spec fn next_discriminant(prev: Seq<i128>, v: VariantDecl, index: int) -> Result<
    i128,
    CenumError,
> {
    match v.discriminant {
        None => if next_implicit(prev) > i128::MAX {
            Err(CenumError::DiscriminantOverflow { variant: index as usize })
        } else {
            Ok(next_implicit(prev) as i128)
        },
        Some(e) => match explicit_value(e, index) {
            Err(err) => Err(err),
            Ok(val) => if prev.len() > 0 && val < next_implicit(prev) {
                Err(CenumError::DiscriminantReuse { variant: index as usize })
            } else {
                Ok(val as i128)
            },
        },
    }
}

/// The discriminants of the variants, in declaration order, or the error of
/// the first variant that is refused.
pub open spec fn resolution(vs: Seq<VariantDecl>) -> Result<Seq<i128>, CenumError>
    decreases vs.len(),
{
    if vs.len() == 0 {
        Ok(Seq::empty())
    } else {
        match resolution(vs.drop_last()) {
            Err(e) => Err(e),
            Ok(ds) => match next_discriminant(ds, vs.last(), vs.len() - 1) {
                Err(e) => Err(e),
                Ok(d) => Ok(ds.push(d)),
            },
        }
    }
}

pub open spec fn strictly_increasing(ds: Seq<i128>) -> bool {
    forall|i: int, j: int| 0 <= i < j < ds.len() ==> ds[i] < ds[j]
}

/// Resolution gives one discriminant per variant, each greater than the one before.
pub proof fn lemma_resolution_increasing(vs: Seq<VariantDecl>)
    requires
        resolution(vs) is Ok,
    ensures
        resolution(vs)->Ok_0.len() == vs.len(),
        strictly_increasing(resolution(vs)->Ok_0),
    decreases vs.len(),
{
    if vs.len() > 0 {
        lemma_resolution_increasing(vs.drop_last());
        let ds = resolution(vs.drop_last())->Ok_0;
        let d = next_discriminant(ds, vs.last(), vs.len() - 1)->Ok_0;
        if let Some(e) = vs.last().discriminant {
            lemma_explicit_in_range(e, vs.len() - 1);
        }
        assert(ds.len() > 0 ==> d > ds.last());
        assert(resolution(vs)->Ok_0 == ds.push(d));
        assert forall|i: int, j: int| 0 <= i < j < ds.len() + 1 implies #[trigger] ds.push(d)[i]
            < #[trigger] ds.push(d)[j] by {
            if j == ds.len() {
                assert(ds[i] <= ds.last());
            }
        }
    }
}

/// Without explicit discriminants, each variant's discriminant is its position.
pub proof fn lemma_implicit_positions(vs: Seq<VariantDecl>)
    requires
        vs.len() <= usize::MAX,
        forall|i: int| 0 <= i < vs.len() ==> (#[trigger] vs[i]).discriminant is None,
    ensures
        resolution(vs) == Ok::<Seq<i128>, CenumError>(Seq::new(vs.len(), |i: int| i as i128)),
    decreases vs.len(),
{
    if vs.len() > 0 {
        lemma_implicit_positions(vs.drop_last());
        let prev = Seq::new((vs.len() - 1) as nat, |i: int| i as i128);
        assert(vs.last().discriminant is None);
        assert(prev.len() > 0 ==> prev.last() == vs.len() - 2);
        assert(next_implicit(prev) == vs.len() - 1);
        assert(next_discriminant(prev, vs.last(), vs.len() - 1) == Ok::<i128, CenumError>(
            (vs.len() - 1) as i128,
        ));
        assert(prev.push((vs.len() - 1) as i128) =~= Seq::new(vs.len(), |i: int| i as i128));
    } else {
        assert(Seq::new(0, |i: int| i as i128) =~= Seq::<i128>::empty());
    }
}

/// A lone variant with an explicit literal takes its value, whatever it is:
/// the first variant is never checked against a counter.
pub proof fn lemma_first_explicit_accepted(v: VariantDecl)
    requires
        v.discriminant is Some,
        explicit_value(v.discriminant->Some_0, 0) is Ok,
    ensures
        resolution(seq![v]) == Ok::<Seq<i128>, CenumError>(
            seq![explicit_value(v.discriminant->Some_0, 0)->Ok_0 as i128],
        ),
{
    assert(seq![v].drop_last() =~= Seq::<VariantDecl>::empty());
    assert(resolution(Seq::<VariantDecl>::empty()) == Ok::<Seq<i128>, CenumError>(Seq::empty()));
    let (_, d) = literal_digits(v.discriminant->Some_0)->Some_0;
    lemma_value_nonneg(d);
    assert(Seq::<i128>::empty().push(explicit_value(v.discriminant->Some_0, 0)->Ok_0 as i128)
        =~= seq![explicit_value(v.discriminant->Some_0, 0)->Ok_0 as i128]);
}

/// Once a prefix of the variants is refused, so is the whole declaration, with the same error.
proof fn lemma_error_extends(vs: Seq<VariantDecl>, k: int)
    requires
        0 <= k <= vs.len(),
        resolution(vs.subrange(0, k)) is Err,
    ensures
        resolution(vs) == resolution(vs.subrange(0, k)),
    decreases vs.len() - k,
{
    if k < vs.len() {
        let pre = vs.subrange(0, k + 1);
        assert(pre.drop_last() =~= vs.subrange(0, k));
        lemma_error_extends(vs, k + 1);
    } else {
        assert(vs.subrange(0, k) =~= vs);
    }
}

/// Reads an explicit discriminant expression of the variant at `index`.
fn read_explicit(e: &DiscriminantExpr, index: usize) -> (r: Result<i128, CenumError>)
    ensures
        match r {
            Ok(v) => explicit_value(*e, index as int) == Ok::<int, CenumError>(v as int),
            Err(err) => explicit_value(*e, index as int) == Err::<int, CenumError>(err),
        },
{
    let (negated, digits) = match e {
        DiscriminantExpr::Int(d) => (false, d),
        DiscriminantExpr::Neg(inner) => match &**inner {
            DiscriminantExpr::Int(d) => (true, d),
            _ => {
                return Err(CenumError::ExpectedIntegerLiteral { variant: index });
            },
        },
        DiscriminantExpr::Other => {
            return Err(CenumError::ExpectedIntegerLiteral { variant: index });
        },
    };
    if !crate::decimal::is_decimal_str(digits.as_str()) {
        return Err(CenumError::ExpectedIntegerLiteral { variant: index });
    }
    proof {
        lemma_value_nonneg(digits@);
    }
    match parse_decimal(digits.as_str()) {
        None => Err(CenumError::LiteralOutOfRange { variant: index }),
        Some(v) => if negated {
            Ok(-v)
        } else {
            Ok(v)
        },
    }
}

/// Resolves the discriminant of every variant in one forward pass.
pub fn resolve_discriminants(variants: &Vec<VariantDecl>) -> (r: Result<Vec<i128>, CenumError>)
    ensures
        match r {
            Ok(ds) => resolution(variants@) == Ok::<Seq<i128>, CenumError>(ds@),
            Err(e) => resolution(variants@) == Err::<Seq<i128>, CenumError>(e),
        },
{
    let mut ds: Vec<i128> = Vec::new();
    let mut i: usize = 0;
    while i < variants.len()
        invariant
            i <= variants.len(),
            resolution(variants@.subrange(0, i as int)) == Ok::<Seq<i128>, CenumError>(ds@),
            ds@.len() == i,
        decreases variants.len() - i,
    {
        let ghost pre = variants@.subrange(0, i + 1);
        assert(pre.drop_last() =~= variants@.subrange(0, i as int));
        let v = &variants[i];
        let d: i128 = match &v.discriminant {
            None => {
                if i == 0 {
                    0
                } else if ds[i - 1] == i128::MAX {
                    proof {
                        lemma_error_extends(variants@, i + 1);
                    }
                    return Err(CenumError::DiscriminantOverflow { variant: i });
                } else {
                    ds[i - 1] + 1
                }
            },
            Some(e) => {
                match read_explicit(e, i) {
                    Err(err) => {
                        proof {
                            lemma_error_extends(variants@, i + 1);
                        }
                        return Err(err);
                    },
                    Ok(val) => {
                        if i > 0 && val <= ds[i - 1] {
                            proof {
                                lemma_error_extends(variants@, i + 1);
                            }
                            return Err(CenumError::DiscriminantReuse { variant: i });
                        }
                        val
                    },
                }
            },
        };
        ds.push(d);
        i = i + 1;
    }
    assert(variants@.subrange(0, i as int) =~= variants@);
    Ok(ds)
}

} // verus!
