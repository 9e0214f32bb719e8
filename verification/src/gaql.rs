use vstd::prelude::*;

use crate::order::str_eq;
use crate::value::{
    dec_of, field_models, lemma_field_models_index, lemma_field_models_len,
    lemma_list_models_add, lemma_list_models_index, lemma_list_models_len, list_models,
    value_model, DynamicValue, ValueModel,
};

verus! {

// The query-search request shape and the narrowing of search responses:
// a request object is assembled from already-validated scalars, and the
// "results" envelope is taken out of decoded responses unless the caller
// asked for the raw payload.

/// The scalar inputs of one search invocation.
pub struct SearchArgs {
    pub customer_id: String,
    pub query: String,
    pub use_search: bool,
    pub page_size: Option<i64>,
    pub page_token: Option<String>,
    pub validate_only: bool,
    pub summary_row_setting: Option<String>,
    pub return_total_results_count: bool,
    pub raw: bool,
    pub jsonl: bool,
}

pub ghost struct SearchArgsModel {
    pub customer_id: Seq<char>,
    pub query: Seq<char>,
    pub use_search: bool,
    pub page_size: Option<i64>,
    pub page_token: Option<Seq<char>>,
    pub validate_only: bool,
    pub summary_row_setting: Option<Seq<char>>,
    pub return_total_results_count: bool,
    pub raw: bool,
    pub jsonl: bool,
}

impl View for SearchArgs {
    type V = SearchArgsModel;

    open spec fn view(&self) -> SearchArgsModel {
        SearchArgsModel {
            customer_id: self.customer_id@,
            query: self.query@,
            use_search: self.use_search,
            page_size: self.page_size,
            page_token: match self.page_token {
                Option::Some(ref s) => Option::Some(s@),
                Option::None => Option::None,
            },
            validate_only: self.validate_only,
            summary_row_setting: match self.summary_row_setting {
                Option::Some(ref s) => Option::Some(s@),
                Option::None => Option::None,
            },
            return_total_results_count: self.return_total_results_count,
            raw: self.raw,
            jsonl: self.jsonl,
        }
    }
}

/// A search invocation's output: one JSON document, or one document per
/// line for streaming consumption.
pub enum Output {
    Json(DynamicValue),
    JsonLines(Vec<DynamicValue>),
}

/// The fields of the search request object, in the order they are set:
/// account and query always; paging fields only for the unary search
/// variant; the remaining flags only when set.
pub open spec fn search_request_fields(a: SearchArgsModel) -> Seq<(Seq<char>, ValueModel)> {
    seq![("customerId"@, ValueModel::Str(a.customer_id)), ("query"@, ValueModel::Str(a.query))]
        + (if a.use_search && a.page_size is Some {
        seq![("pageSize"@, ValueModel::Num(dec_of(a.page_size->0 as int)))]
    } else {
        Seq::empty()
    }) + (if a.use_search && a.page_token is Some {
        seq![("pageToken"@, ValueModel::Str(a.page_token->0))]
    } else {
        Seq::empty()
    }) + (if a.validate_only {
        seq![("validateOnly"@, ValueModel::Bool(true))]
    } else {
        Seq::empty()
    }) + (if a.summary_row_setting is Some {
        seq![("summaryRowSetting"@, ValueModel::Str(a.summary_row_setting->0))]
    } else {
        Seq::empty()
    }) + (if a.use_search && a.return_total_results_count {
        seq![("returnTotalResultsCount"@, ValueModel::Bool(true))]
    } else {
        Seq::empty()
    })
}

/// Assembles the search request object from the invocation's scalars,
/// with exactly the fields `search_request_fields` states.
#[verifier::rlimit(60)]
pub fn build_search_request(args: &SearchArgs) -> (r: DynamicValue)
    ensures
        r@ == ValueModel::Obj(search_request_fields(args@)),
{
    let mut fields: Vec<(String, DynamicValue)> = Vec::new();
    fields.push(
        (String::from_str("customerId"), DynamicValue::Str(args.customer_id.clone())),
    );
    fields.push((String::from_str("query"), DynamicValue::Str(args.query.clone())));
    if args.use_search {
        if let Some(page_size) = args.page_size {
            fields.push(
                (String::from_str("pageSize"), DynamicValue::Num(crate::value::i64_to_dec(page_size))),
            );
        }
    }
    if args.use_search {
        if let Some(page_token) = &args.page_token {
            fields.push((String::from_str("pageToken"), DynamicValue::Str(page_token.clone())));
        }
    }
    if args.validate_only {
        fields.push((String::from_str("validateOnly"), DynamicValue::Bool(true)));
    }
    if let Some(setting) = &args.summary_row_setting {
        fields.push((String::from_str("summaryRowSetting"), DynamicValue::Str(setting.clone())));
    }
    if args.use_search && args.return_total_results_count {
        fields.push((String::from_str("returnTotalResultsCount"), DynamicValue::Bool(true)));
    }
    proof {
        assert(field_models(fields@) =~= search_request_fields(args@)) by {
            reveal_with_fuel(crate::value::field_models, 9);
        }
    }
    DynamicValue::Obj(fields)
}

/// `i` is the first field with the given name.
pub open spec fn is_first_field_named(
    fs: Seq<(Seq<char>, ValueModel)>,
    name: Seq<char>,
    i: int,
) -> bool {
    0 <= i < fs.len() && fs[i].0 == name && forall|j: int|
        0 <= j < i ==> (#[trigger] fs[j]).0 != name
}

/// The index of the first field with the given name, if any.
pub open spec fn first_field_named(fs: Seq<(Seq<char>, ValueModel)>, name: Seq<char>) -> Option<
    int,
> {
    if exists|i: int| is_first_field_named(fs, name, i) {
        Option::Some(choose|i: int| is_first_field_named(fs, name, i))
    } else {
        Option::None
    }
}

pub proof fn lemma_first_field_named_some(
    fs: Seq<(Seq<char>, ValueModel)>,
    name: Seq<char>,
    i: int,
)
    requires
        is_first_field_named(fs, name, i),
    ensures
        first_field_named(fs, name) == Option::Some(i),
{
    let k = choose|k: int| is_first_field_named(fs, name, k);
    if k < i {
        assert(fs[k].0 != name);
    } else if i < k {
        assert(fs[i].0 != name);
    }
}

pub proof fn lemma_first_field_named_none(fs: Seq<(Seq<char>, ValueModel)>, name: Seq<char>)
    requires
        forall|i: int| 0 <= i < fs.len() ==> (#[trigger] fs[i]).0 != name,
    ensures
        first_field_named(fs, name) == Option::<int>::None,
{
    if exists|i: int| is_first_field_named(fs, name, i) {
        let k = choose|k: int| is_first_field_named(fs, name, k);
        assert(fs[k].0 != name);
    }
}

/// The "results" envelope of a decoded response: the first field of that
/// name if the response is an object holding one, otherwise an empty list.
pub open spec fn results_of(v: ValueModel) -> ValueModel {
    match v {
        ValueModel::Obj(fs) => match first_field_named(fs, "results"@) {
            Option::Some(i) => fs[i].1,
            Option::None => ValueModel::List(Seq::empty()),
        },
        _ => ValueModel::List(Seq::empty()),
    }
}

/// Finds the first field named "results".
fn find_results_index(fields: &Vec<(String, DynamicValue)>) -> (r: Option<usize>)
    ensures
        match r {
            Option::Some(i) => i < fields@.len() && first_field_named(
                field_models(fields@),
                "results"@,
            ) == Option::Some(i as int),
            Option::None => first_field_named(field_models(fields@), "results"@)
                == Option::<int>::None,
        },
{
    let ghost fs = field_models(fields@);
    let n = fields.len();
    let mut i: usize = 0;
    proof {
        lemma_field_models_len(fields@);
    }
    while i < n
        invariant
            n == fields@.len(),
            i <= n,
            fs == field_models(fields@),
            fs.len() == n,
            forall|k: int| 0 <= k < i ==> (#[trigger] fs[k]).0 != "results"@,
        decreases n - i,
    {
        let hit = str_eq(fields[i].0.as_str(), "results");
        proof {
            lemma_field_models_index(fields@, i as int);
        }
        if hit {
            proof {
                lemma_first_field_named_some(fs, "results"@, i as int);
            }
            return Some(i);
        }
        i += 1;
    }
    proof {
        lemma_first_field_named_none(fs, "results"@);
    }
    None
}

/// Takes the "results" envelope out of a decoded response.
pub fn narrow_results(v: DynamicValue) -> (r: DynamicValue)
    ensures
        r@ == results_of(v@),
{
    match v {
        DynamicValue::Obj(mut fields) => {
            let ghost fs = field_models(fields@);
            match find_results_index(&fields) {
                Some(i) => {
                    proof {
                        lemma_field_models_index(fields@, i as int);
                    }
                    let pair = fields.remove(i);
                    pair.1
                },
                None => DynamicValue::List(Vec::new()),
            }
        },
        _ => {
            proof {
                assert(list_models(Seq::<DynamicValue>::empty()) =~= Seq::<ValueModel>::empty());
            }
            DynamicValue::List(Vec::new())
        },
    }
}

/// The rows one streamed response chunk contributes: the elements of its
/// "results" list, or none when it has no such list.
pub open spec fn rows_of_chunk(v: ValueModel) -> Seq<ValueModel> {
    match results_of(v) {
        ValueModel::List(vs) => vs,
        _ => Seq::empty(),
    }
}

/// The rows of a whole stream, each chunk's in order.
pub open spec fn rows_of_chunks(chunks: Seq<ValueModel>) -> Seq<ValueModel>
    decreases chunks.len(),
{
    if chunks.len() == 0 {
        Seq::empty()
    } else {
        rows_of_chunk(chunks[0]) + rows_of_chunks(chunks.drop_first())
    }
}

fn chunk_rows(c: DynamicValue) -> (r: Vec<DynamicValue>)
    ensures
        list_models(r@) == rows_of_chunk(value_model(c)),
{
    let narrowed = narrow_results(c);
    match narrowed {
        DynamicValue::List(vs) => vs,
        _ => {
            proof {
                assert(list_models(Seq::<DynamicValue>::empty()) =~= Seq::<ValueModel>::empty());
            }
            Vec::new()
        },
    }
}

/// Flattens a stream's chunks into the rows their "results" lists hold,
/// keeping the order the peer sent them in.
pub fn collect_rows(chunks: Vec<DynamicValue>) -> (r: Vec<DynamicValue>)
    ensures
        list_models(r@) == rows_of_chunks(list_models(chunks@)),
{
    let mut rest = chunks;
    let mut rows: Vec<DynamicValue> = Vec::new();
    let ghost all = list_models(rest@);
    proof {
        assert(list_models(Seq::<DynamicValue>::empty()) =~= Seq::<ValueModel>::empty());
        assert(list_models(rows@) + rows_of_chunks(list_models(rest@)) =~= rows_of_chunks(all));
    }
    while rest.len() > 0
        invariant
            list_models(rows@) + rows_of_chunks(list_models(rest@)) == rows_of_chunks(all),
        decreases rest@.len(),
    {
        let ghost rest_before = rest@;
        let ghost rows_before = rows@;
        let c = rest.remove(0);
        proof {
            lemma_list_models_len(rest_before);
            assert(rest@ =~= rest_before.drop_first());
            let ms_before = list_models(rest_before);
            let ms_after = list_models(rest@);
            assert(ms_after =~= ms_before.drop_first()) by {
                lemma_list_models_len(rest@);
                assert forall|k: int| 0 <= k < ms_after.len() implies ms_after[k]
                    == ms_before.drop_first()[k] by {
                    lemma_list_models_index(rest@, k);
                    lemma_list_models_index(rest_before, k + 1);
                }
            }
            lemma_list_models_index(rest_before, 0);
            assert(ms_before[0] == value_model(c));
            assert(rows_of_chunks(ms_before) == rows_of_chunk(value_model(c)) + rows_of_chunks(
                ms_after,
            ));
        }
        let mut cr = chunk_rows(c);
        let ghost cr_seq = cr@;
        rows.append(&mut cr);
        proof {
            assert(rows@ == rows_before + cr_seq);
            lemma_list_models_add(rows_before, cr_seq);
            assert(list_models(rows@) + rows_of_chunks(list_models(rest@)) =~= (list_models(
                rows_before,
            ) + rows_of_chunks(list_models(rest_before))));
        }
    }
    proof {
        assert(rows_of_chunks(list_models(rest@)) =~= Seq::<ValueModel>::empty());
        assert(list_models(rows@) =~= rows_of_chunks(all));
    }
    rows
}

} // verus!
