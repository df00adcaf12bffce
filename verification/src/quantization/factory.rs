//! Which quantizers an experiment runs.
use vstd::prelude::*;
use vstd::string::*;
use crate::quantization::rabitq::bench::RabitqVariant;
use crate::quantization::turboquant::bench::TurboQuantVariant;

verus! {

/// Bits per coordinate of the quantizers that are compared.
pub const RECALL_QUANT_BITS: u8 = 5;

/// Families of quantizers.
#[derive(Debug, Clone, Copy, PartialEq, Eq, Structural)]
pub enum QuantizerKind {
    Turboquant,
    Rabitq,
    Naivesq,
    All,
}

/// Variants of quantizers.
#[derive(Debug, Clone, Copy, PartialEq, Eq, Structural)]
pub enum QuantizerVariant {
    /// The variant that a family recommends.
    Default,
    /// Parameters that are the same for all vectors.
    Fixed,
    /// Parameters that are chosen for each vector.
    Optimal,
    /// A dense Gaussian projection of residuals.
    GaussianQjl,
    /// Every variant of a family.
    All,
}

/// A family and one of its variants.
#[derive(Debug, Clone, Copy, PartialEq, Eq, Structural)]
pub struct QuantizerSpec {
    pub kind: QuantizerKind,
    pub variant: QuantizerVariant,
}

/// A family does not have the variant.
#[derive(Debug, Clone, Copy, PartialEq, Eq, Structural)]
pub struct UnsupportedVariant {
    pub kind: QuantizerKind,
    pub variant: QuantizerVariant,
}

pub open spec fn kind_name(kind: QuantizerKind) -> Seq<char> {
    match kind {
        QuantizerKind::Turboquant => "Turboquant"@,
        QuantizerKind::Rabitq => "Rabitq"@,
        QuantizerKind::Naivesq => "Naivesq"@,
        QuantizerKind::All => "All"@,
    }
}

pub open spec fn variant_name(variant: QuantizerVariant) -> Seq<char> {
    match variant {
        QuantizerVariant::Default => "Default"@,
        QuantizerVariant::Fixed => "Fixed"@,
        QuantizerVariant::Optimal => "Optimal"@,
        QuantizerVariant::GaussianQjl => "GaussianQjl"@,
        QuantizerVariant::All => "All"@,
    }
}

impl UnsupportedVariant {
    /// The error in words.
    pub fn message(&self) -> (r: String)
        ensures
            r@ == kind_name(self.kind) + " does not support the "@ + variant_name(self.variant)
                + " variant"@,
    {
        let kind = match self.kind {
            QuantizerKind::Turboquant => "Turboquant",
            QuantizerKind::Rabitq => "Rabitq",
            QuantizerKind::Naivesq => "Naivesq",
            QuantizerKind::All => "All",
        };
        let variant = match self.variant {
            QuantizerVariant::Default => "Default",
            QuantizerVariant::Fixed => "Fixed",
            QuantizerVariant::Optimal => "Optimal",
            QuantizerVariant::GaussianQjl => "GaussianQjl",
            QuantizerVariant::All => "All",
        };
        kind.to_owned().concat(" does not support the ").concat(variant).concat(" variant")
    }
}

/// The variants of a family that `variant` stands for, or nothing where the
/// family does not have it.
pub open spec fn variants_of(kind: QuantizerKind, variant: QuantizerVariant) -> Option<
    Seq<QuantizerVariant>,
> {
    match kind {
        QuantizerKind::Turboquant => match variant {
            QuantizerVariant::Default => Some(seq![QuantizerVariant::Default]),
            QuantizerVariant::GaussianQjl => Some(seq![QuantizerVariant::GaussianQjl]),
            QuantizerVariant::All => Some(
                seq![QuantizerVariant::Default, QuantizerVariant::GaussianQjl],
            ),
            _ => None,
        },
        QuantizerKind::Rabitq => match variant {
            QuantizerVariant::Default | QuantizerVariant::Fixed => Some(
                seq![QuantizerVariant::Fixed],
            ),
            QuantizerVariant::Optimal => Some(seq![QuantizerVariant::Optimal]),
            QuantizerVariant::All => Some(
                seq![QuantizerVariant::Fixed, QuantizerVariant::Optimal],
            ),
            QuantizerVariant::GaussianQjl => None,
        },
        _ => match variant {
            QuantizerVariant::Default | QuantizerVariant::All => Some(
                seq![QuantizerVariant::Default],
            ),
            _ => None,
        },
    }
}

/// The quantizers of a family with the given variants.
pub open spec fn specs_of(kind: QuantizerKind, variants: Seq<QuantizerVariant>) -> Seq<
    QuantizerSpec,
> {
    Seq::new(variants.len(), |i: int| QuantizerSpec { kind, variant: variants[i] })
}

/// `r` gives the quantizers of one family, or says that it lacks the variant.
pub open spec fn selects(
    kind: QuantizerKind,
    variant: QuantizerVariant,
    r: Result<Vec<QuantizerSpec>, UnsupportedVariant>,
) -> bool {
    match variants_of(kind, variant) {
        Some(list) => r matches Ok(specs) && specs@ == specs_of(kind, list),
        None => r == Err::<Vec<QuantizerSpec>, UnsupportedVariant>(
            UnsupportedVariant { kind, variant },
        ),
    }
}

/// The variant that one family runs when all families are asked for.
pub open spec fn variant_among_all(kind: QuantizerKind, variant: QuantizerVariant) ->
    QuantizerVariant {
    match kind {
        QuantizerKind::Turboquant => match variant {
            QuantizerVariant::All => QuantizerVariant::All,
            QuantizerVariant::GaussianQjl => QuantizerVariant::GaussianQjl,
            _ => QuantizerVariant::Default,
        },
        QuantizerKind::Rabitq => match variant {
            QuantizerVariant::GaussianQjl => QuantizerVariant::Default,
            other => other,
        },
        _ => QuantizerVariant::Default,
    }
}

/// The quantizers that an experiment runs. When all families are asked for,
/// each runs the variant as far as it has it, and its default otherwise.
pub fn selected_quantizers(kind: QuantizerKind, variant: QuantizerVariant) -> (r: Result<
    Vec<QuantizerSpec>,
    UnsupportedVariant,
>)
    ensures
        kind != QuantizerKind::All ==> selects(kind, variant, r),
        kind == QuantizerKind::All ==> (r matches Ok(specs) && specs@ == specs_of(
            QuantizerKind::Turboquant,
            variants_of(
                QuantizerKind::Turboquant,
                variant_among_all(QuantizerKind::Turboquant, variant),
            )->0,
        ) + specs_of(
            QuantizerKind::Rabitq,
            variants_of(
                QuantizerKind::Rabitq,
                variant_among_all(QuantizerKind::Rabitq, variant),
            )->0,
        ) + specs_of(QuantizerKind::Naivesq, seq![QuantizerVariant::Default])),
{
    match kind {
        QuantizerKind::Turboquant => turboquant_specs(variant),
        QuantizerKind::Rabitq => rabitq_specs(variant),
        QuantizerKind::Naivesq => default_only(kind, variant),
        QuantizerKind::All => {
            let turbo_variant = match variant {
                QuantizerVariant::All => QuantizerVariant::All,
                QuantizerVariant::GaussianQjl => QuantizerVariant::GaussianQjl,
                _ => QuantizerVariant::Default,
            };
            let rabitq_variant = match variant {
                QuantizerVariant::GaussianQjl => QuantizerVariant::Default,
                other => other,
            };
            let mut turbo = turboquant_specs(turbo_variant)?;
            let mut rabitq = rabitq_specs(rabitq_variant)?;
            let mut naive = default_only(QuantizerKind::Naivesq, QuantizerVariant::Default)?;
            let mut specs: Vec<QuantizerSpec> = Vec::new();
            specs.append(&mut turbo);
            specs.append(&mut rabitq);
            specs.append(&mut naive);
            proof {
                assert(specs@ =~= specs_of(
                    QuantizerKind::Turboquant,
                    variants_of(QuantizerKind::Turboquant, turbo_variant)->0,
                ) + specs_of(
                    QuantizerKind::Rabitq,
                    variants_of(QuantizerKind::Rabitq, rabitq_variant)->0,
                ) + specs_of(QuantizerKind::Naivesq, seq![QuantizerVariant::Default]));
            }
            Ok(specs)
        },
    }
}

/// The single variant of a family that has no other.
pub fn default_only(kind: QuantizerKind, variant: QuantizerVariant) -> (r: Result<
    Vec<QuantizerSpec>,
    UnsupportedVariant,
>)
    ensures
        variant == QuantizerVariant::Default || variant == QuantizerVariant::All ==> (r matches Ok(
            specs,
        ) && specs@ == specs_of(kind, seq![QuantizerVariant::Default])),
        !(variant == QuantizerVariant::Default || variant == QuantizerVariant::All) ==> r == Err::<
            Vec<QuantizerSpec>,
            UnsupportedVariant,
        >(UnsupportedVariant { kind, variant }),
{
    match variant {
        QuantizerVariant::Default | QuantizerVariant::All => {
            let v = vec![QuantizerSpec { kind, variant: QuantizerVariant::Default }];
            proof {
                assert(v@ =~= specs_of(kind, seq![QuantizerVariant::Default]));
            }
            Ok(v)
        },
        _ => Err(UnsupportedVariant { kind, variant }),
    }
}

/// The variants of the two-stage codes.
pub fn turboquant_specs(variant: QuantizerVariant) -> (r: Result<
    Vec<QuantizerSpec>,
    UnsupportedVariant,
>)
    ensures
        selects(QuantizerKind::Turboquant, variant, r),
{
    let kind = QuantizerKind::Turboquant;
    let plain = QuantizerSpec { kind, variant: QuantizerVariant::Default };
    let gaussian = QuantizerSpec { kind, variant: QuantizerVariant::GaussianQjl };
    let specs = match variant {
        QuantizerVariant::Default => vec![plain],
        QuantizerVariant::GaussianQjl => vec![gaussian],
        QuantizerVariant::All => vec![plain, gaussian],
        _ => {
            return Err(UnsupportedVariant { kind, variant });
        },
    };
    proof {
        assert(specs@ =~= specs_of(kind, variants_of(kind, variant)->0));
    }
    Ok(specs)
}

/// The variants of the binary codes.
pub fn rabitq_specs(variant: QuantizerVariant) -> (r: Result<
    Vec<QuantizerSpec>,
    UnsupportedVariant,
>)
    ensures
        selects(QuantizerKind::Rabitq, variant, r),
{
    let kind = QuantizerKind::Rabitq;
    let fixed = QuantizerSpec { kind, variant: QuantizerVariant::Fixed };
    let optimal = QuantizerSpec { kind, variant: QuantizerVariant::Optimal };
    let specs = match variant {
        QuantizerVariant::Default | QuantizerVariant::Fixed => vec![fixed],
        QuantizerVariant::Optimal => vec![optimal],
        QuantizerVariant::All => vec![fixed, optimal],
        QuantizerVariant::GaussianQjl => {
            return Err(UnsupportedVariant { kind, variant });
        },
    };
    proof {
        assert(specs@ =~= specs_of(kind, variants_of(kind, variant)->0));
    }
    Ok(specs)
}

/// A quantizer that can be built.
#[derive(Debug, Clone, Copy, PartialEq, Eq, Structural)]
pub enum ResolvedQuantizer {
    Turboquant(TurboQuantVariant),
    Rabitq(RabitqVariant),
    Naivesq,
}

/// Why a quantizer cannot be built: it still stands for several.
#[derive(Debug, Clone, Copy, PartialEq, Eq, Structural)]
pub enum Unresolved {
    TurboquantVariant,
    RabitqVariant,
    AllQuantizers,
}

impl Unresolved {
    /// The error in words.
    pub fn message(&self) -> (r: &'static str)
        ensures
            *self == Unresolved::TurboquantVariant ==> r@
                == "internal error: unresolved turboquant variant"@,
            *self == Unresolved::RabitqVariant ==> r@
                == "internal error: unresolved rabitq variant"@,
            *self == Unresolved::AllQuantizers ==> r@
                == "internal error: build_quantizer called with all"@,
    {
        match self {
            Unresolved::TurboquantVariant => "internal error: unresolved turboquant variant",
            Unresolved::RabitqVariant => "internal error: unresolved rabitq variant",
            Unresolved::AllQuantizers => "internal error: build_quantizer called with all",
        }
    }
}

/// The quantizer that a family and a variant stand for.
pub open spec fn resolved(spec: QuantizerSpec) -> Result<ResolvedQuantizer, Unresolved> {
    match spec.kind {
        QuantizerKind::Turboquant => match spec.variant {
            QuantizerVariant::Default => Ok(ResolvedQuantizer::Turboquant(TurboQuantVariant::Srht)),
            QuantizerVariant::GaussianQjl => Ok(
                ResolvedQuantizer::Turboquant(TurboQuantVariant::GaussianQjl),
            ),
            _ => Err(Unresolved::TurboquantVariant),
        },
        QuantizerKind::Rabitq => match spec.variant {
            QuantizerVariant::Default | QuantizerVariant::Fixed => Ok(
                ResolvedQuantizer::Rabitq(RabitqVariant::Fixed),
            ),
            QuantizerVariant::Optimal => Ok(ResolvedQuantizer::Rabitq(RabitqVariant::Optimal)),
            _ => Err(Unresolved::RabitqVariant),
        },
        QuantizerKind::Naivesq => Ok(ResolvedQuantizer::Naivesq),
        QuantizerKind::All => Err(Unresolved::AllQuantizers),
    }
}

/// Says which quantizer to build.
pub fn resolve_quantizer(spec: QuantizerSpec) -> (r: Result<ResolvedQuantizer, Unresolved>)
    ensures
        r == resolved(spec),
{
    match spec.kind {
        QuantizerKind::Turboquant => match spec.variant {
            QuantizerVariant::Default => Ok(ResolvedQuantizer::Turboquant(TurboQuantVariant::Srht)),
            QuantizerVariant::GaussianQjl => Ok(
                ResolvedQuantizer::Turboquant(TurboQuantVariant::GaussianQjl),
            ),
            _ => Err(Unresolved::TurboquantVariant),
        },
        QuantizerKind::Rabitq => match spec.variant {
            QuantizerVariant::Default | QuantizerVariant::Fixed => Ok(
                ResolvedQuantizer::Rabitq(RabitqVariant::Fixed),
            ),
            QuantizerVariant::Optimal => Ok(ResolvedQuantizer::Rabitq(RabitqVariant::Optimal)),
            _ => Err(Unresolved::RabitqVariant),
        },
        QuantizerKind::Naivesq => Ok(ResolvedQuantizer::Naivesq),
        QuantizerKind::All => Err(Unresolved::AllQuantizers),
    }
}

/// Every quantizer that an experiment selects can be built.
pub proof fn law_selected_quantizers_resolve(
    kind: QuantizerKind,
    variant: QuantizerVariant,
    i: int,
)
    requires
        kind != QuantizerKind::All,
        variants_of(kind, variant) is Some,
        0 <= i < variants_of(kind, variant)->0.len(),
    ensures
        resolved(QuantizerSpec { kind, variant: variants_of(kind, variant)->0[i] }) is Ok,
{
}

/// When all families are asked for, each has the variant that it runs.
pub proof fn law_all_families_have_their_variant(variant: QuantizerVariant)
    ensures
        variants_of(
            QuantizerKind::Turboquant,
            variant_among_all(QuantizerKind::Turboquant, variant),
        ) is Some,
        variants_of(
            QuantizerKind::Rabitq,
            variant_among_all(QuantizerKind::Rabitq, variant),
        ) is Some,
        variants_of(
            QuantizerKind::Naivesq,
            variant_among_all(QuantizerKind::Naivesq, variant),
        ) is Some,
{
}

} // verus!
