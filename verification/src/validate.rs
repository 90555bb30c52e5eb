//! Structural validation of a proposed query object (MQO).
//!
//! An MQO is valid when it has a non-empty `model` text, a non-empty
//! `measures` array whose every entry carries a textual `unique_name`, and
//! a `dimensions` array (which may be empty). The checks run in that
//! order and the first failure is reported.

use vstd::prelude::*;

use crate::json::{Json, JsonV};
use crate::seqs::{first_index, lemma_first_index, lemma_first_index_is, lemma_first_index_none};
use crate::text::{decimal, decimal_text};

verus! {

/// Why an MQO is not structurally valid.
#[derive(Debug, Clone, Copy, PartialEq, Eq, Structural)]
pub enum ValidationError {
    MissingModel,
    EmptyModel,
    MissingMeasures,
    EmptyMeasures,
    MissingDimensions,
    /// The measure at this index has no textual `unique_name`.
    InvalidMeasureEntry(usize),
}

/// The predicate of a measure entry without a textual `unique_name`.
pub open spec fn lacks_unique_name() -> spec_fn(JsonV) -> bool {
    |m: JsonV| m.at("unique_name"@).as_str() is None
}

/// The outcome of validating `mqo`.
pub open spec fn spec_validate(mqo: JsonV) -> Result<(), ValidationError> {
    match mqo.field("model"@) {
        None => Err(ValidationError::MissingModel),
        Some(model) => match model.as_str() {
            None => Err(ValidationError::EmptyModel),
            Some(name) => if name.len() == 0 {
                Err(ValidationError::EmptyModel)
            } else {
                match mqo.field("measures"@) {
                    None => Err(ValidationError::MissingMeasures),
                    Some(measures) => match measures.as_array() {
                        None => Err(ValidationError::MissingMeasures),
                        Some(items) => if items.len() == 0 {
                            Err(ValidationError::EmptyMeasures)
                        } else {
                            match first_index(items, lacks_unique_name()) {
                                Some(i) => Err(ValidationError::InvalidMeasureEntry(i as usize)),
                                None => match mqo.field("dimensions"@) {
                                    Some(dims) => if dims.as_array() is Some {
                                        Ok(())
                                    } else {
                                        Err(ValidationError::MissingDimensions)
                                    },
                                    None => Err(ValidationError::MissingDimensions),
                                },
                            }
                        },
                    },
                }
            },
        },
    }
}

/// Returns `Ok(())` if the MQO is structurally valid, the first failed
/// check otherwise.
pub fn validate(mqo: &Json) -> (r: Result<(), ValidationError>)
    ensures
        r == spec_validate(mqo@),
{
    match mqo.field("model") {
        None => return Err(ValidationError::MissingModel),
        Some(m) => match m.as_str() {
            None => return Err(ValidationError::EmptyModel),
            Some(name) => {
                if name.as_str().is_empty() {
                    return Err(ValidationError::EmptyModel);
                }
            },
        },
    }
    let items = match mqo.field("measures") {
        None => return Err(ValidationError::MissingMeasures),
        Some(m) => match m.as_array() {
            None => return Err(ValidationError::MissingMeasures),
            Some(items) => items,
        },
    };
    if items.len() == 0 {
        return Err(ValidationError::EmptyMeasures);
    }
    let ghost iv = crate::json::views(items@);
    let mut i: usize = 0;
    #[verifier::loop_isolation(false)]
    while i < items.len()
        invariant
            i <= items@.len(),
            iv == crate::json::views(items@),
            forall|j: int| 0 <= j < i ==> !lacks_unique_name()(#[trigger] iv[j]),
        decreases items@.len() - i,
    {
        if items[i].str_field("unique_name").is_none() {
            proof {
                lemma_first_index_is(iv, lacks_unique_name(), i as int);
            }
            return Err(ValidationError::InvalidMeasureEntry(i));
        }
        i = i + 1;
    }
    proof {
        lemma_first_index_none(iv, lacks_unique_name());
    }
    match mqo.field("dimensions") {
        None => Err(ValidationError::MissingDimensions),
        Some(d) => if d.as_array().is_none() {
            Err(ValidationError::MissingDimensions)
        } else {
            Ok(())
        },
    }
}

/// Whether `mqo` is well formed, read member by member: its `model` is a
/// non-empty text, its `measures` a non-empty array whose every entry has
/// a textual `unique_name`, and its `dimensions` an array.
pub open spec fn well_formed(mqo: JsonV) -> bool {
    &&& model_named(mqo)
    &&& measures_named(mqo)
    &&& mqo.at("dimensions"@).as_array() is Some
}

/// Validation accepts exactly the well-formed MQOs, and where it reports a
/// measure entry, that entry is the first without a textual `unique_name`.
pub proof fn law_validate_accepts_well_formed(mqo: JsonV)
    ensures
        spec_validate(mqo) is Ok <==> well_formed(mqo),
        mqo.at("measures"@).items().len() <= usize::MAX ==> (spec_validate(mqo) matches Err(
            ValidationError::InvalidMeasureEntry(j),
        ) ==> j < mqo.at("measures"@).items().len() && mqo.at("measures"@).items()[j as int].at(
            "unique_name"@,
        ).as_str() is None && forall|k: int|
            0 <= k < j ==> (#[trigger] mqo.at("measures"@).items()[k]).at("unique_name"@).as_str() is Some),
{
    let items = mqo.at("measures"@).items();
    lemma_first_index(items, lacks_unique_name());
    if mqo.field("measures"@) is Some {
        assert(mqo.at("measures"@) == mqo.field("measures"@)->0);
    }
    if mqo.field("model"@) is Some {
        assert(mqo.at("model"@) == mqo.field("model"@)->0);
    }
    if mqo.field("dimensions"@) is Some {
        assert(mqo.at("dimensions"@) == mqo.field("dimensions"@)->0);
    }
    if well_formed(mqo) {
        assert(first_index(items, lacks_unique_name()) is None) by {
            if let Some(i) = first_index(items, lacks_unique_name()) {
                assert(items[i].at("unique_name"@).as_str() is Some);
            }
        }
    }
    if spec_validate(mqo) is Ok {
        assert forall|i: int| 0 <= i < items.len() implies (#[trigger] items[i]).at(
            "unique_name"@,
        ).as_str() is Some by {
            assert(!lacks_unique_name()(items[i]));
        }
    }
}

/// Whether `mqo` names its model by a non-empty text.
pub open spec fn model_named(mqo: JsonV) -> bool {
    mqo.at("model"@).as_str() matches Some(name) && name.len() > 0
}

/// Whether the `measures` of `mqo` is a non-empty array whose every entry
/// has a textual `unique_name`.
pub open spec fn measures_named(mqo: JsonV) -> bool {
    &&& mqo.at("measures"@).as_array() matches Some(items) && items.len() > 0
    &&& forall|i: int|
        0 <= i < mqo.at("measures"@).items().len() ==> (#[trigger] mqo.at(
            "measures"@,
        ).items()[i]).at("unique_name"@).as_str() is Some
}

/// Validation reports the first check that fails, in the order model,
/// measures, dimensions: a missing `model`; a `model` that is not a
/// non-empty text; `measures` missing or not an array; `measures` empty;
/// `dimensions` missing or not an array.
pub proof fn law_validate_reports_first_failure(mqo: JsonV)
    ensures
        (spec_validate(mqo) == Err::<(), ValidationError>(ValidationError::MissingModel)) <==> mqo.field(
            "model"@,
        ) is None,
        (spec_validate(mqo) == Err::<(), ValidationError>(ValidationError::EmptyModel)) <==> (mqo.field(
            "model"@,
        ) is Some && !model_named(mqo)),
        (spec_validate(mqo) == Err::<(), ValidationError>(ValidationError::MissingMeasures)) <==> (
        model_named(mqo) && mqo.at("measures"@).as_array() is None),
        (spec_validate(mqo) == Err::<(), ValidationError>(ValidationError::EmptyMeasures)) <==> (
        model_named(mqo) && mqo.at("measures"@).as_array() == Some(Seq::<JsonV>::empty())),
        (spec_validate(mqo) == Err::<(), ValidationError>(ValidationError::MissingDimensions)) <==> (
        model_named(mqo) && measures_named(mqo) && mqo.at("dimensions"@).as_array() is None),
{
    law_validate_accepts_well_formed(mqo);
    let items = mqo.at("measures"@).items();
    lemma_first_index(items, lacks_unique_name());
    if mqo.field("measures"@) is Some {
        assert(mqo.at("measures"@) == mqo.field("measures"@)->0);
    }
    if mqo.field("model"@) is Some {
        assert(mqo.at("model"@) == mqo.field("model"@)->0);
    }
    if mqo.field("dimensions"@) is Some {
        assert(mqo.at("dimensions"@) == mqo.field("dimensions"@)->0);
    }
    if model_named(mqo) && measures_named(mqo) {
        assert(first_index(items, lacks_unique_name()) is None) by {
            if let Some(i) = first_index(items, lacks_unique_name()) {
                assert(items[i].at("unique_name"@).as_str() is Some);
            }
        }
    }
    if model_named(mqo) && mqo.at("measures"@).as_array() is Some && items.len() > 0
        && first_index(items, lacks_unique_name()) is None {
        assert forall|i: int| 0 <= i < items.len() implies (#[trigger] items[i]).at(
            "unique_name"@,
        ).as_str() is Some by {
            assert(!lacks_unique_name()(items[i]));
        }
        assert(measures_named(mqo));
    }
    if mqo.at("measures"@).as_array() is Some && items.len() == 0 {
        assert(items =~= Seq::<JsonV>::empty());
    }
}

/// The message that describes a validation error.
pub open spec fn error_message(e: ValidationError) -> Seq<char> {
    match e {
        ValidationError::MissingModel => "MQO missing 'model' field"@,
        ValidationError::EmptyModel => "MQO 'model' is empty string"@,
        ValidationError::MissingMeasures => "MQO missing 'measures' array"@,
        ValidationError::EmptyMeasures => "MQO 'measures' array is empty"@,
        ValidationError::MissingDimensions => "MQO missing 'dimensions' array"@,
        ValidationError::InvalidMeasureEntry(i) => "MQO measures["@ + decimal(i as nat)
            + "] missing 'unique_name'"@,
    }
}

impl ValidationError {
    /// The message that describes this error.
    pub fn to_string(&self) -> (r: String)
        ensures
            r@ == error_message(*self),
    {
        match self {
            ValidationError::MissingModel => String::from_str("MQO missing 'model' field"),
            ValidationError::EmptyModel => String::from_str("MQO 'model' is empty string"),
            ValidationError::MissingMeasures => String::from_str("MQO missing 'measures' array"),
            ValidationError::EmptyMeasures => String::from_str("MQO 'measures' array is empty"),
            ValidationError::MissingDimensions => String::from_str(
                "MQO missing 'dimensions' array",
            ),
            ValidationError::InvalidMeasureEntry(i) => {
                let mut r = String::from_str("MQO measures[");
                let n = decimal_text(*i);
                r.append(n.as_str());
                r.append("] missing 'unique_name'");
                r
            },
        }
    }
}

} // verus!
