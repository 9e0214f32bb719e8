use vstd::prelude::*;

use crate::value::{DynamicValue, ValueModel};

verus! {

// The batch-mutate request shape: assembled from the caller's scalars and
// operation list, unless a full pre-built body is supplied, in which case
// the body passes through untouched.

/// The inputs of one batch-mutate invocation.
pub struct MutateArgs {
    pub customer_id: String,
    pub ops: Option<DynamicValue>,
    pub body: Option<DynamicValue>,
    pub partial_failure: bool,
    pub validate_only: bool,
    pub response_content_type: Option<String>,
}

pub ghost struct MutateArgsModel {
    pub customer_id: Seq<char>,
    pub ops: Option<ValueModel>,
    pub body: Option<ValueModel>,
    pub partial_failure: bool,
    pub validate_only: bool,
    pub response_content_type: Option<Seq<char>>,
}

impl View for MutateArgs {
    type V = MutateArgsModel;

    open spec fn view(&self) -> MutateArgsModel {
        MutateArgsModel {
            customer_id: self.customer_id@,
            ops: match self.ops {
                Option::Some(ref v) => Option::Some(v@),
                Option::None => Option::None,
            },
            body: match self.body {
                Option::Some(ref v) => Option::Some(v@),
                Option::None => Option::None,
            },
            partial_failure: self.partial_failure,
            validate_only: self.validate_only,
            response_content_type: match self.response_content_type {
                Option::Some(ref s) => Option::Some(s@),
                Option::None => Option::None,
            },
        }
    }
}

/// A mutate invocation that cannot be shaped.
#[derive(Clone, Copy, Debug, PartialEq, Eq, Structural)]
pub enum MutateError {
    /// Neither an operation list nor a full body was supplied.
    OpsRequired,
}

impl MutateError {
    pub fn message(&self) -> (r: String)
        ensures
            r@ == "--ops required unless --body provided"@,
    {
        String::from_str("--ops required unless --body provided")
    }
}

/// The fields of the shaped mutate request, in the order they are set.
pub open spec fn mutate_request_fields(a: MutateArgsModel, ops: ValueModel) -> Seq<
    (Seq<char>, ValueModel),
> {
    seq![("customerId"@, ValueModel::Str(a.customer_id)), ("mutateOperations"@, ops)] + (
    if a.partial_failure {
        seq![("partialFailure"@, ValueModel::Bool(true))]
    } else {
        Seq::empty()
    }) + (if a.validate_only {
        seq![("validateOnly"@, ValueModel::Bool(true))]
    } else {
        Seq::empty()
    }) + (if a.response_content_type is Some {
        seq![("responseContentType"@, ValueModel::Str(a.response_content_type->0))]
    } else {
        Seq::empty()
    })
}

/// The request body of a mutate invocation: a supplied full body passes
/// through unchanged; otherwise the request is shaped around the supplied
/// operations, and a missing operation list is an error.
pub open spec fn mutate_body_of(a: MutateArgsModel) -> Result<ValueModel, MutateError> {
    match a.body {
        Option::Some(b) => Result::Ok(b),
        Option::None => match a.ops {
            Option::Some(ops) => Result::Ok(
                ValueModel::Obj(mutate_request_fields(a, ops)),
            ),
            Option::None => Result::Err(MutateError::OpsRequired),
        },
    }
}

/// Builds the mutate request body, exactly as `mutate_body_of` states.
/// The arguments are consumed: a supplied body or operation list moves
/// into the result.
pub fn build_mutate_body(args: MutateArgs) -> (r: Result<DynamicValue, MutateError>)
    ensures
        match r {
            Result::Ok(v) => mutate_body_of(args@) == Result::<ValueModel, MutateError>::Ok(v@),
            Result::Err(e) => mutate_body_of(args@) == Result::<ValueModel, MutateError>::Err(e),
        },
{
    let ghost a = args@;
    let MutateArgs {
        customer_id,
        ops,
        body,
        partial_failure,
        validate_only,
        response_content_type,
    } = args;
    if let Some(b) = body {
        return Ok(b);
    }
    let ops_value = match ops {
        Some(v) => v,
        None => {
            return Err(MutateError::OpsRequired);
        },
    };
    let ghost ops_model = ops_value@;
    let mut fields: Vec<(String, DynamicValue)> = Vec::new();
    fields.push((String::from_str("customerId"), DynamicValue::Str(customer_id)));
    fields.push((String::from_str("mutateOperations"), ops_value));
    if partial_failure {
        fields.push((String::from_str("partialFailure"), DynamicValue::Bool(true)));
    }
    if validate_only {
        fields.push((String::from_str("validateOnly"), DynamicValue::Bool(true)));
    }
    if let Some(t) = response_content_type {
        fields.push((String::from_str("responseContentType"), DynamicValue::Str(t)));
    }
    proof {
        assert(crate::value::field_models(fields@) =~= mutate_request_fields(a, ops_model)) by {
            reveal_with_fuel(crate::value::field_models, 7);
        }
    }
    Ok(DynamicValue::Obj(fields))
}

} // verus!
