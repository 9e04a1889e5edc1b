//! Shared pieces of the MCP tools: request headers, the per-session arguments,
//! the error a tool answers with, and the servers a laboratory is reached by.

use vstd::prelude::*;

use crate::text::{
    chars_of, decimal_value, is_digit, is_white_space, lemma_trim_strips_only_white_space, parse_u64,
    parsed_u64, trim, trimmed_bounds, u64_of_digits,
};

verus! {

/// Header carrying the caller's response id (scopes the executor tool calls).
pub const RESPONSE_ID_HEADER: &'static str = "x-objectiveai-response-id";

/// Header carrying the caller's agent instance hierarchy.
pub const AIH_HEADER: &'static str = "x-objectiveai-agent-instance-hierarchy";

/// Header carrying the per-session arguments JSON (e.g. `token-repeat`).
pub const ARGUMENTS_HEADER: &'static str = "x-objectiveai-arguments";

/// The error a tool call answers with: bad parameters from the caller, or a
/// failure on the way to an answer.
pub enum ToolError {
    InvalidParams(String),
    Internal(String),
}

/// Whether `r` is the invalid-parameters error with message `msg`.
pub open spec fn is_invalid_params<T>(r: Result<T, ToolError>, msg: Seq<char>) -> bool {
    r matches Err(ToolError::InvalidParams(m)) && m@ == msg
}

/// Whether `r` is the internal error with message `msg`.
pub open spec fn is_internal<T>(r: Result<T, ToolError>, msg: Seq<char>) -> bool {
    r matches Err(ToolError::Internal(m)) && m@ == msg
}

/// `prefix` followed by `rest`, as a new string.
pub fn joined(prefix: &str, rest: &str) -> (r: String)
    ensures
        r@ == prefix@ + rest@,
{
    let mut r = prefix.to_owned();
    r.append(rest);
    r
}

/// A header lookup with its value as text.
pub open spec fn lookup_view(lookup: Option<Option<&str>>) -> Option<Option<Seq<char>>> {
    match lookup {
        Some(Some(v)) => Some(Some(v@)),
        Some(None) => Some(None),
        None => None,
    }
}

/// The value a request gives for a required header, trimmed; `None` when the
/// request has no HTTP parts, the header is absent or not visible text, or it
/// trims to nothing.
pub open spec fn header_value(lookup: Option<Option<Seq<char>>>) -> Option<Seq<char>> {
    match lookup {
        Some(Some(v)) => if trim(v).len() > 0 {
            Some(trim(v))
        } else {
            None
        },
        _ => None,
    }
}

/// A present header is its value with the white space at both ends removed
/// and nothing else: a contiguous part of the value, the characters cut on
/// either side all white space, the kept part neither starting nor ending with
/// white space. It is missing only when nothing but white space is given.
pub proof fn lemma_header_value_is_trimmed_value(v: Seq<char>)
    ensures
        header_value(Some(Some(v))) is Some ==> exists|a: int, b: int|
            {
                &&& 0 <= a < b <= v.len()
                &&& header_value(Some(Some(v))) == Some(v.subrange(a, b))
                &&& forall|i: int| 0 <= i < a ==> is_white_space(#[trigger] v[i])
                &&& forall|i: int| b <= i < v.len() ==> is_white_space(#[trigger] v[i])
                &&& !is_white_space(v[a]) && !is_white_space(v[b - 1])
            },
        header_value(Some(Some(v))) is None <==> forall|i: int|
            0 <= i < v.len() ==> is_white_space(#[trigger] v[i]),
{
    lemma_trim_strips_only_white_space(v);
    let (a, b) = choose|a: int, b: int|
        {
            &&& 0 <= a <= b <= v.len()
            &&& trim(v) == v.subrange(a, b)
            &&& forall|i: int| 0 <= i < a ==> is_white_space(#[trigger] v[i])
            &&& forall|i: int| b <= i < v.len() ==> is_white_space(#[trigger] v[i])
            &&& a < b ==> !is_white_space(v[a]) && !is_white_space(v[b - 1])
        };
    if a < b {
        assert(trim(v)[0] == v[a]);
        assert(!(forall|i: int| 0 <= i < v.len() ==> is_white_space(#[trigger] v[i])));
    } else {
        assert forall|i: int| 0 <= i < v.len() implies is_white_space(#[trigger] v[i]) by {
            if i < a {
            } else {
            }
        }
    }
}

/// Read a required header, erroring if absent or empty.
///
/// `lookup` is what the request holds: `None` when it carries no HTTP parts,
/// `Some(None)` when the header `name` is absent or not visible text, and
/// `Some(Some(v))` for its value `v`.
pub fn required_header(lookup: Option<Option<&str>>, name: &str) -> (r: Result<String, ToolError>)
    ensures
        lookup is None ==> is_invalid_params(r, "missing request parts"@),
        lookup is Some ==> match header_value(lookup_view(lookup)) {
            Some(v) => r matches Ok(s) && s@ == v,
            None => is_invalid_params(r, "missing required header: "@ + name@),
        },
{
    match lookup {
        None => Err(ToolError::InvalidParams("missing request parts".to_owned())),
        Some(value) => {
            let missing = ToolError::InvalidParams(joined("missing required header: ", name));
            match value {
                None => Err(missing),
                Some(v) => {
                    let cs = chars_of(v);
                    let (a, b) = trimmed_bounds(&cs, 0, cs.len());
                    assert(cs@.subrange(0, cs@.len() as int) =~= v@);
                    if a == b {
                        Err(missing)
                    } else {
                        Ok(v.substring_char(a, b).to_owned())
                    }
                },
            }
        },
    }
}

/// What a JSON object holds under a key, reduced to what the argument logic
/// reads of it.
pub enum JsonField {
    /// The text is not JSON.
    NotJson,
    /// The text is JSON, but not an object with that key.
    Absent,
    /// A number, with its value when it is a non-negative integer that fits a `u64`.
    Number(Option<u64>),
    /// A string.
    Text(String),
    /// Anything else (`null`, a boolean, an array, an object).
    Other,
}

/// A [`JsonField`] with its string as text.
pub enum JsonFieldView {
    NotJson,
    Absent,
    Number(Option<u64>),
    Text(Seq<char>),
    Other,
}

impl View for JsonField {
    type V = JsonFieldView;

    open spec fn view(&self) -> JsonFieldView {
        match self {
            JsonField::NotJson => JsonFieldView::NotJson,
            JsonField::Absent => JsonFieldView::Absent,
            JsonField::Number(n) => JsonFieldView::Number(*n),
            JsonField::Text(s) => JsonFieldView::Text(s@),
            JsonField::Other => JsonFieldView::Other,
        }
    }
}

/// What `serde_json` reads under the key `key` of the JSON text `text`.
pub uninterp spec fn json_field_of(text: Seq<char>, key: Seq<char>) -> JsonFieldView;

/// Calls `serde_json::from_str::<serde_json::Value>`, then `Value::get` with
/// `key`, then, on a number, `Number::as_u64`. The contract claims only that
/// the result is a function of the text and the key (JSON parsing and lookup
/// are `serde_json`'s to define); it states nothing of which value that is.
#[verifier::external_body]
fn json_field(text: &str, key: &str) -> (r: JsonField)
    ensures
        r@ == json_field_of(text@, key@),
{
    match serde_json::from_str::<serde_json::Value>(text) {
        Err(_) => JsonField::NotJson,
        Ok(value) => match value.get(key) {
            None => JsonField::Absent,
            Some(serde_json::Value::Number(n)) => JsonField::Number(n.as_u64()),
            Some(serde_json::Value::String(s)) => JsonField::Text(s.clone()),
            Some(_) => JsonField::Other,
        },
    }
}

/// The `token-repeat` a field gives: a number that is a `u64`, or a string
/// that `str::parse::<u64>` reads.
pub open spec fn token_repeat_of(field: JsonFieldView) -> Option<u64> {
    match field {
        JsonFieldView::Number(n) => n,
        JsonFieldView::Text(s) => parsed_u64(s),
        _ => None,
    }
}

/// The `token-repeat` that the field found in the arguments gives. The host
/// encodes argument values as strings, so a number and a string are accepted.
pub fn token_repeat_from_field(field: &JsonField) -> (r: Option<u64>)
    ensures
        r == token_repeat_of(field@),
{
    match field {
        JsonField::Number(n) => *n,
        JsonField::Text(s) => parse_u64(s.as_str()),
        _ => None,
    }
}

/// The decimal digits of `n`, most significant first, without leading zeros.
pub open spec fn decimal_text(n: nat) -> Seq<char>
    decreases n,
{
    if n < 10 {
        seq![(n + '0' as nat) as char]
    } else {
        decimal_text(n / 10).push(((n % 10) + '0' as nat) as char)
    }
}

proof fn lemma_decimal_text_reads_back(n: nat)
    ensures
        decimal_text(n).len() > 0,
        forall|i: int| 0 <= i < decimal_text(n).len() ==> is_digit(#[trigger] decimal_text(n)[i]),
        decimal_value(decimal_text(n)) == n,
    decreases n,
{
    if n >= 10 {
        lemma_decimal_text_reads_back(n / 10);
        let t = decimal_text(n);
        assert(t.drop_last() =~= decimal_text(n / 10));
        assert(t.last() == ((n % 10) + '0' as nat) as char);
        assert(n == (n / 10) * 10 + n % 10) by (nonlinear_arith);
        assert(decimal_value(t) == decimal_value(decimal_text(n / 10)) * 10 + (n % 10));
    } else {
        let t = decimal_text(n);
        assert(t.drop_last() =~= Seq::<char>::empty());
        assert(decimal_value(Seq::<char>::empty()) == 0);
    }
}

/// A number and the string of its decimal digits give the same `token-repeat`:
/// the argument may come in either form.
pub proof fn lemma_number_and_string_agree(n: u64)
    ensures
        token_repeat_of(JsonFieldView::Text(decimal_text(n as nat))) == token_repeat_of(
            JsonFieldView::Number(Some(n)),
        ),
        token_repeat_of(JsonFieldView::Number(Some(n))) == Some(n),
{
    lemma_decimal_text_reads_back(n as nat);
    let t = decimal_text(n as nat);
    assert(t[0] != '+');
    assert(u64_of_digits(t) == Some(n));
}

/// Pull `token-repeat` out of the arguments JSON object (number or string form).
pub fn parse_token_repeat(raw: &str) -> (r: Option<u64>)
    ensures
        r == token_repeat_of(json_field_of(raw@, "token-repeat"@)),
{
    let field = json_field(raw, "token-repeat");
    token_repeat_from_field(&field)
}

/// Parse `token-repeat` (u64) from the arguments header; `lookup` is as for
/// [`required_header`].
pub fn token_repeat(lookup: Option<Option<&str>>) -> (r: Result<u64, ToolError>)
    ensures
        lookup is None ==> is_invalid_params(r, "missing request parts"@),
        lookup is Some ==> match header_value(lookup_view(lookup)) {
            Some(v) => match token_repeat_of(json_field_of(v, "token-repeat"@)) {
                Some(n) => r == Ok::<u64, ToolError>(n),
                None => is_invalid_params(r, "token-repeat must be a u64"@),
            },
            None => is_invalid_params(r, "missing required header: "@ + ARGUMENTS_HEADER@),
        },
{
    let raw = required_header(lookup, ARGUMENTS_HEADER)?;
    match parse_token_repeat(raw.as_str()) {
        Some(n) => Ok(n),
        None => Err(ToolError::InvalidParams("token-repeat must be a u64".to_owned())),
    }
}

/// A laboratory an MCP server stands for.
pub enum Laboratory {
    /// A client-resolved laboratory, identified by an opaque id.
    Client { id: String },
    /// An agent-embedded laboratory.
    Agent,
}

/// One connected upstream MCP server: the proxy's routing prefix for it, and
/// the laboratory it is, if any.
pub struct McpServer {
    pub name: String,
    pub laboratory: Option<Laboratory>,
}

/// The laboratory id of a server, as text, if it is a client laboratory.
pub open spec fn laboratory_id_of(server: McpServer) -> Option<Seq<char>> {
    match server.laboratory {
        Some(Laboratory::Client { id }) => Some(id@),
        _ => None,
    }
}

/// The laboratory id of a server, if it is a client laboratory.
pub fn laboratory_id(server: &McpServer) -> (r: Option<&str>)
    ensures
        match r {
            Some(s) => laboratory_id_of(*server) == Some(s@),
            None => laboratory_id_of(*server) is None,
        },
{
    match &server.laboratory {
        Some(Laboratory::Client { id }) => Some(id.as_str()),
        _ => None,
    }
}

/// The name under which a server's `Bash` tool surfaces through the proxy.
pub open spec fn bash_tool_name(server_name: Seq<char>) -> Seq<char> {
    server_name + "_Bash"@
}

/// The `Bash` tool name for a server. Tools surface through the proxy as
/// `<server.name>_<tool>`, so the laboratory's `Bash` tool is `<server.name>_Bash`.
pub fn bash_tool(server: &McpServer) -> (r: String)
    ensures
        r@ == bash_tool_name(server.name@),
{
    joined(server.name.as_str(), "_Bash")
}

} // verus!
