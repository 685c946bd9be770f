//! The JSON-RPC response envelope: a version marker that may be absent, a
//! payload that is exactly one of `result` or `error`, a mandatory request
//! id, and opaque extension metadata. Encoding and decoding are verified
//! against the JSON codec in [`crate::json`].

use vstd::prelude::*;

use crate::json::{
    bytes_eq, clone_bytes, encode_value, int_in_wire_range, jfields_of, jval_of, parse_json,
    spec_enc_value, spec_parse_json, wf_jval, JVal, Json,
};

verus! {

/// The canonical protocol version marker, `"2.0"`.
#[derive(Debug, Clone, Copy, PartialEq, Eq, Structural)]
pub struct TwoPointZero;

/// A request id: a number, a string (as raw bytes), or `null`.
#[derive(Debug, PartialEq, Eq)]
pub enum Id {
    /// `null`
    Null,
    /// A numeric id.
    Number(u64),
    /// A string id, as raw bytes.
    Str(Vec<u8>),
}

/// The mathematical model of an [`Id`].
pub enum IdV {
    /// `null`
    Null,
    /// A numeric id.
    Number(u64),
    /// A string id.
    Str(Seq<u8>),
}

impl View for Id {
    type V = IdV;

    open spec fn view(&self) -> IdV {
        match self {
            Id::Null => IdV::Null,
            Id::Number(n) => IdV::Number(*n),
            Id::Str(s) => IdV::Str(s@),
        }
    }
}

impl Id {
    /// A structurally equal copy of the id.
    pub fn deep_clone(&self) -> (r: Id)
        ensures
            r@ == self@,
    {
        match self {
            Id::Null => Id::Null,
            Id::Number(n) => Id::Number(*n),
            Id::Str(s) => Id::Str(clone_bytes(s)),
        }
    }
}

/// A JSON-RPC error object: an integer code, a message, and optional data.
#[derive(Debug, PartialEq, Eq)]
pub struct ErrorObject {
    /// The error code.
    pub code: i64,
    /// The error message, as raw bytes.
    pub message: Vec<u8>,
    /// Additional data, if any.
    pub data: Option<Json>,
}

/// The mathematical model of an [`ErrorObject`].
pub struct ErrV {
    /// The error code.
    pub code: i64,
    /// The error message.
    pub message: Seq<u8>,
    /// Additional data, if any.
    pub data: Option<JVal>,
}

impl View for ErrorObject {
    type V = ErrV;

    open spec fn view(&self) -> ErrV {
        ErrV {
            code: self.code,
            message: self.message@,
            data: match self.data {
                Option::Some(d) => Option::Some(jval_of(d)),
                Option::None => Option::None,
            },
        }
    }
}

/// A well-formed error model: its data, when present, is well-formed.
pub open spec fn err_wf(e: ErrV) -> bool {
    match e.data {
        Option::Some(d) => wf_jval(d),
        Option::None => true,
    }
}

impl ErrorObject {
    /// A structurally equal copy of the error object.
    pub fn deep_clone(&self) -> (r: ErrorObject)
        ensures
            r@ == self@,
    {
        let data = match &self.data {
            Option::Some(d) => Option::Some(d.deep_clone()),
            Option::None => Option::None,
        };
        ErrorObject { code: self.code, message: clone_bytes(&self.message), data }
    }

    /// Turns a borrowed error object into an owned one.
    pub fn into_owned(self) -> (r: ErrorObject)
        ensures
            r@ == self@,
    {
        self
    }
}

/// The payload of a response: exactly one of a success value or an error
/// object. Payloads are held owned.
#[derive(Debug, PartialEq, Eq)]
pub enum ResponsePayload {
    /// A successful response carrying a `result` value.
    Success(Json),
    /// A failed response carrying an `error` object.
    Error(ErrorObject),
}

/// The mathematical model of a [`ResponsePayload`].
pub enum PayloadV {
    /// A successful response.
    Success(JVal),
    /// A failed response.
    Error(ErrV),
}

impl View for ResponsePayload {
    type V = PayloadV;

    open spec fn view(&self) -> PayloadV {
        match self {
            ResponsePayload::Success(v) => PayloadV::Success(jval_of(*v)),
            ResponsePayload::Error(e) => PayloadV::Error(e@),
        }
    }
}

/// A well-formed payload model: its values lie in the wire range.
pub open spec fn payload_wf(p: PayloadV) -> bool {
    match p {
        PayloadV::Success(v) => wf_jval(v),
        PayloadV::Error(e) => err_wf(e),
    }
}

impl ResponsePayload {
    /// A successful owned response payload.
    pub fn success(t: Json) -> (r: ResponsePayload)
        ensures
            r@ == PayloadV::Success(jval_of(t)),
    {
        ResponsePayload::Success(t)
    }

    /// A successful response payload copied out of a borrowed value.
    pub fn success_borrowed(t: &Json) -> (r: ResponsePayload)
        ensures
            r@ == PayloadV::Success(jval_of(*t)),
    {
        ResponsePayload::Success(t.deep_clone())
    }

    /// Turns a borrowed payload into an owned one.
    pub fn into_owned(self) -> (r: ResponsePayload)
        ensures
            r@ == self@,
    {
        match self {
            ResponsePayload::Error(e) => ResponsePayload::Error(e.into_owned()),
            ResponsePayload::Success(v) => ResponsePayload::Success(v),
        }
    }

    /// An error response payload.
    pub fn error(e: ErrorObject) -> (r: ResponsePayload)
        ensures
            r@ == PayloadV::Error(e@),
    {
        ResponsePayload::Error(e)
    }

    /// An error response payload copied out of a borrowed error object.
    pub fn error_borrowed(e: &ErrorObject) -> (r: ResponsePayload)
        ensures
            r@ == PayloadV::Error(e@),
    {
        ResponsePayload::Error(e.deep_clone())
    }

    /// A structurally equal copy of the payload.
    pub fn deep_clone(&self) -> (r: ResponsePayload)
        ensures
            r@ == self@,
    {
        match self {
            ResponsePayload::Success(v) => ResponsePayload::Success(v.deep_clone()),
            ResponsePayload::Error(e) => ResponsePayload::Error(e.deep_clone()),
        }
    }
}

#[verifier::external_type_specification]
#[verifier::external_body]
/// Declares `http::Extensions`, the opaque extension map carried on a
/// response, so that it may stand in fields and signatures.
pub struct ExExtensions(http::Extensions);

/// Relies on `http::Extensions::new`: creates the (empty) extensions map.
/// Nothing further is assumed of the opaque map.
pub assume_specification[ http::Extensions::new ]() -> http::Extensions;

/// A JSON-RPC response envelope.
#[derive(Debug)]
pub struct Response {
    /// The protocol version marker; absent when the wire form omitted it
    /// or carried `null`.
    pub jsonrpc: Option<TwoPointZero>,
    /// The payload: a result or an error.
    pub payload: ResponsePayload,
    /// The request id this response answers.
    pub id: Id,
    /// Opaque extension metadata; never on the wire.
    pub extensions: http::Extensions,
}

impl Response {
    /// A response with the canonical version marker and empty extensions.
    pub fn new(payload: ResponsePayload, id: Id) -> (r: Response)
        ensures
            r.jsonrpc == Option::Some(TwoPointZero),
            r.payload@ == payload@,
            r.id@ == id@,
    {
        Response { jsonrpc: Option::Some(TwoPointZero), payload, id, extensions: http::Extensions::new() }
    }

    /// A response with the canonical version marker and given extensions.
    pub fn new_with_extensions(payload: ResponsePayload, id: Id, ext: http::Extensions) -> (r:
        Response)
        ensures
            r.jsonrpc == Option::Some(TwoPointZero),
            r.payload@ == payload@,
            r.id@ == id@,
            r.extensions == ext,
    {
        Response { jsonrpc: Option::Some(TwoPointZero), payload, id, extensions: ext }
    }

    /// Turns a borrowed response into an owned one.
    pub fn into_owned(self) -> (r: Response)
        ensures
            r.jsonrpc == self.jsonrpc,
            r.payload@ == self.payload@,
            r.id@ == self.id@,
            r.extensions == self.extensions,
    {
        Response {
            jsonrpc: self.jsonrpc,
            payload: self.payload.into_owned(),
            id: self.id,
            extensions: self.extensions,
        }
    }

    /// The extensions of the response.
    pub fn extensions(&self) -> (r: &http::Extensions)
        ensures
            *r == self.extensions,
    {
        &self.extensions
    }

    /// A mutable reference to the extensions of the response.
    pub fn extensions_mut(&mut self) -> (r: &mut http::Extensions)
        ensures
            *r == old(self).extensions,
            final(self).jsonrpc == old(self).jsonrpc,
            final(self).payload == old(self).payload,
            final(self).id == old(self).id,
            final(self).extensions == *final(r),
    {
        &mut self.extensions
    }
}

/// A response reduced to its success arm; converting from a [`Response`]
/// fails with the contained error object when the payload is an error.
#[derive(Debug, PartialEq, Eq)]
pub struct Success {
    /// The protocol version marker.
    pub jsonrpc: Option<TwoPointZero>,
    /// The success value.
    pub result: Json,
    /// The request id.
    pub id: Id,
}

impl Success {
    /// Extracts the success arm of a response, or fails with the error
    /// object the response carried.
    pub fn try_from(rp: Response) -> (r: Result<Success, ErrorObject>)
        ensures
            match r {
                Result::Ok(s) => rp.payload@ matches PayloadV::Success(v) && jval_of(s.result) == v
                    && s.jsonrpc == rp.jsonrpc && s.id@ == rp.id@,
                Result::Err(e) => rp.payload@ == PayloadV::Error(e@),
            },
    {
        match rp.payload {
            ResponsePayload::Error(e) => Result::Err(e.into_owned()),
            ResponsePayload::Success(v) => Result::Ok(
                Success { jsonrpc: rp.jsonrpc, result: v, id: rp.id },
            ),
        }
    }
}

/// The payload of a subscription notification: the subscription id and a
/// result value.
#[derive(Debug, PartialEq, Eq)]
pub struct SubscriptionPayload {
    /// The subscription this notification belongs to.
    pub subscription: Id,
    /// The notification value.
    pub result: Json,
}

/// The payload of a subscription error notification: the subscription id
/// and an error value.
#[derive(Debug, PartialEq, Eq)]
pub struct SubscriptionPayloadError {
    /// The subscription this notification belongs to.
    pub subscription: Id,
    /// The error value.
    pub error: Json,
}

/// The bytes of the key `jsonrpc`.
pub open spec fn key_jsonrpc() -> Seq<u8> {
    seq![106u8, 115u8, 111u8, 110u8, 114u8, 112u8, 99u8]
}

/// The bytes of the key `id`.
pub open spec fn key_id() -> Seq<u8> {
    seq![105u8, 100u8]
}

/// The bytes of the key `result`.
pub open spec fn key_result() -> Seq<u8> {
    seq![114u8, 101u8, 115u8, 117u8, 108u8, 116u8]
}

/// The bytes of the key `error`.
pub open spec fn key_error() -> Seq<u8> {
    seq![101u8, 114u8, 114u8, 111u8, 114u8]
}

/// The bytes of the key `code`.
pub open spec fn key_code() -> Seq<u8> {
    seq![99u8, 111u8, 100u8, 101u8]
}

/// The bytes of the key `message`.
pub open spec fn key_message() -> Seq<u8> {
    seq![109u8, 101u8, 115u8, 115u8, 97u8, 103u8, 101u8]
}

/// The bytes of the key `data`.
pub open spec fn key_data() -> Seq<u8> {
    seq![100u8, 97u8, 116u8, 97u8]
}

/// The bytes of the version string `2.0`.
pub open spec fn two_zero() -> Seq<u8> {
    seq![50u8, 46u8, 48u8]
}

/// The JSON value of an id.
pub open spec fn id_jval(id: IdV) -> JVal {
    match id {
        IdV::Null => JVal::Null,
        IdV::Number(n) => JVal::Int(n as i128),
        IdV::Str(s) => JVal::Str(s),
    }
}

/// The JSON value of an error object: `code`, `message`, then `data` only
/// when present.
pub open spec fn err_jval(e: ErrV) -> JVal {
    JVal::Obj(
        seq![(key_code(), JVal::Int(e.code as i128)), (key_message(), JVal::Str(e.message))]
            + match e.data {
            Option::Some(d) => seq![(key_data(), d)],
            Option::None => Seq::empty(),
        },
    )
}

/// The fields of an encoded envelope, in wire order: the version marker
/// (only when present), the id, then exactly one payload arm.
pub open spec fn fields_of(has_version: bool, p: PayloadV, id: IdV) -> Seq<(Seq<u8>, JVal)> {
    (if has_version {
        seq![(key_jsonrpc(), JVal::Str(two_zero()))]
    } else {
        Seq::<(Seq<u8>, JVal)>::empty()
    }) + seq![(key_id(), id_jval(id))] + seq![
        match p {
            PayloadV::Success(v) => (key_result(), v),
            PayloadV::Error(e) => (key_error(), err_jval(e)),
        },
    ]
}

/// The canonical encoding of an envelope.
pub open spec fn spec_enc_response(has_version: bool, p: PayloadV, id: IdV) -> Seq<u8> {
    spec_enc_value(JVal::Obj(fields_of(has_version, p, id)))
}

/// Why a byte buffer is not a response envelope.
#[derive(Debug, Clone, Copy, PartialEq, Eq, Structural)]
pub enum DecodeError {
    /// The buffer is not the supported JSON subset, or not an object.
    Syntax,
    /// A recognized envelope field appears twice.
    DuplicateField,
    /// The mandatory `id` field is missing.
    MissingId,
    /// The `id` field is not a non-negative number, a string, or `null`.
    InvalidId,
    /// The `jsonrpc` field is present but neither `"2.0"` nor `null`.
    InvalidVersion,
    /// Both `result` and `error` are present.
    BothResultAndError,
    /// Neither `result` nor `error` is present.
    MissingPayload,
    /// The `error` field is not a well-formed error object.
    InvalidErrorObject,
}

/// The slots filled while walking envelope fields in wire order.
pub struct ScanState {
    /// The `jsonrpc` value, when seen.
    pub version: Option<JVal>,
    /// The `result` value, when seen.
    pub result: Option<JVal>,
    /// The `error` value, when seen.
    pub error: Option<JVal>,
    /// The `id` value, when seen.
    pub id: Option<JVal>,
}

/// The empty scan state.
pub open spec fn scan_init() -> ScanState {
    ScanState { version: Option::None, result: Option::None, error: Option::None, id: Option::None }
}

/// Walks envelope fields in order, filling the slots; a second occurrence
/// of a recognized field is rejected, unknown fields are ignored.
pub open spec fn spec_scan(fields: Seq<(Seq<u8>, JVal)>, st: ScanState) -> Result<
    ScanState,
    DecodeError,
>
    decreases fields.len(),
{
    if fields.len() == 0 {
        Result::Ok(st)
    } else {
        let key = fields[0].0;
        let v = fields[0].1;
        if key == key_jsonrpc() {
            if st.version is Some {
                Result::Err(DecodeError::DuplicateField)
            } else {
                spec_scan(
                    fields.drop_first(),
                    ScanState {
                        version: Option::Some(v),
                        result: st.result,
                        error: st.error,
                        id: st.id,
                    },
                )
            }
        } else if key == key_result() {
            if st.result is Some {
                Result::Err(DecodeError::DuplicateField)
            } else {
                spec_scan(
                    fields.drop_first(),
                    ScanState {
                        version: st.version,
                        result: Option::Some(v),
                        error: st.error,
                        id: st.id,
                    },
                )
            }
        } else if key == key_error() {
            if st.error is Some {
                Result::Err(DecodeError::DuplicateField)
            } else {
                spec_scan(
                    fields.drop_first(),
                    ScanState {
                        version: st.version,
                        result: st.result,
                        error: Option::Some(v),
                        id: st.id,
                    },
                )
            }
        } else if key == key_id() {
            if st.id is Some {
                Result::Err(DecodeError::DuplicateField)
            } else {
                spec_scan(
                    fields.drop_first(),
                    ScanState {
                        version: st.version,
                        result: st.result,
                        error: st.error,
                        id: Option::Some(v),
                    },
                )
            }
        } else {
            spec_scan(fields.drop_first(), st)
        }
    }
}

/// The id a JSON value stands for, if any: a number in the unsigned 64-bit
/// range, a string, or `null`.
pub open spec fn spec_id_of(v: JVal) -> Option<IdV> {
    match v {
        JVal::Null => Option::Some(IdV::Null),
        JVal::Int(n) => if 0 <= n < 0x1_0000_0000_0000_0000 {
            Option::Some(IdV::Number(n as u64))
        } else {
            Option::None
        },
        JVal::Str(s) => Option::Some(IdV::Str(s)),
        _ => Option::None,
    }
}

/// Whether a version slot is acceptable, and whether the marker is
/// present: absent and `null` both mean "no marker", `"2.0"` means the
/// marker is present, anything else is invalid.
pub open spec fn spec_version_of(v: Option<JVal>) -> Option<bool> {
    match v {
        Option::None => Option::Some(false),
        Option::Some(JVal::Null) => Option::Some(false),
        Option::Some(JVal::Str(s)) => if s == two_zero() {
            Option::Some(true)
        } else {
            Option::None
        },
        Option::Some(_) => Option::None,
    }
}

/// Walks error-object fields, filling code, message and data slots.
pub open spec fn spec_err_scan(
    fields: Seq<(Seq<u8>, JVal)>,
    code: Option<i128>,
    message: Option<Seq<u8>>,
    data: Option<JVal>,
) -> Option<(Option<i128>, Option<Seq<u8>>, Option<JVal>)>
    decreases fields.len(),
{
    if fields.len() == 0 {
        Option::Some((code, message, data))
    } else {
        let key = fields[0].0;
        let v = fields[0].1;
        if key == key_code() {
            if code is Some {
                Option::None
            } else {
                match v {
                    JVal::Int(n) => spec_err_scan(
                        fields.drop_first(),
                        Option::Some(n),
                        message,
                        data,
                    ),
                    _ => Option::None,
                }
            }
        } else if key == key_message() {
            if message is Some {
                Option::None
            } else {
                match v {
                    JVal::Str(s) => spec_err_scan(fields.drop_first(), code, Option::Some(s), data),
                    _ => Option::None,
                }
            }
        } else if key == key_data() {
            if data is Some {
                Option::None
            } else {
                spec_err_scan(fields.drop_first(), code, message, Option::Some(v))
            }
        } else {
            spec_err_scan(fields.drop_first(), code, message, data)
        }
    }
}

/// The error object a JSON value stands for, if any: an object with an
/// integer `code` in the signed 64-bit range, a string `message`, and
/// optional `data` (`null` counting as absent).
pub open spec fn spec_err_of(v: JVal) -> Option<ErrV> {
    match v {
        JVal::Obj(fields) => match spec_err_scan(
            fields,
            Option::None,
            Option::None,
            Option::None,
        ) {
            Option::Some((Option::Some(c), Option::Some(m), d)) => if -0x8000_0000_0000_0000 <= c
                < 0x8000_0000_0000_0000 {
                Option::Some(
                    ErrV {
                        code: c as i64,
                        message: m,
                        data: match d {
                            Option::Some(JVal::Null) => Option::None,
                            Option::Some(x) => Option::Some(x),
                            Option::None => Option::None,
                        },
                    },
                )
            } else {
                Option::None
            },
            _ => Option::None,
        },
        _ => Option::None,
    }
}

/// The bytes of the key `jsonrpc`, as a vector.
pub fn key_jsonrpc_bytes() -> (r: Vec<u8>)
    ensures
        r@ == key_jsonrpc(),
{
    let r: Vec<u8> = vec![106u8, 115u8, 111u8, 110u8, 114u8, 112u8, 99u8];
    proof {
        assert(r@ =~= key_jsonrpc());
    }
    r
}

/// The bytes of the key `id`, as a vector.
pub fn key_id_bytes() -> (r: Vec<u8>)
    ensures
        r@ == key_id(),
{
    let r: Vec<u8> = vec![105u8, 100u8];
    proof {
        assert(r@ =~= key_id());
    }
    r
}

/// The bytes of the key `result`, as a vector.
pub fn key_result_bytes() -> (r: Vec<u8>)
    ensures
        r@ == key_result(),
{
    let r: Vec<u8> = vec![114u8, 101u8, 115u8, 117u8, 108u8, 116u8];
    proof {
        assert(r@ =~= key_result());
    }
    r
}

/// The bytes of the key `error`, as a vector.
pub fn key_error_bytes() -> (r: Vec<u8>)
    ensures
        r@ == key_error(),
{
    let r: Vec<u8> = vec![101u8, 114u8, 114u8, 111u8, 114u8];
    proof {
        assert(r@ =~= key_error());
    }
    r
}

/// The bytes of the key `code`, as a vector.
pub fn key_code_bytes() -> (r: Vec<u8>)
    ensures
        r@ == key_code(),
{
    let r: Vec<u8> = vec![99u8, 111u8, 100u8, 101u8];
    proof {
        assert(r@ =~= key_code());
    }
    r
}

/// The bytes of the key `message`, as a vector.
pub fn key_message_bytes() -> (r: Vec<u8>)
    ensures
        r@ == key_message(),
{
    let r: Vec<u8> = vec![109u8, 101u8, 115u8, 115u8, 97u8, 103u8, 101u8];
    proof {
        assert(r@ =~= key_message());
    }
    r
}

/// The bytes of the key `data`, as a vector.
pub fn key_data_bytes() -> (r: Vec<u8>)
    ensures
        r@ == key_data(),
{
    let r: Vec<u8> = vec![100u8, 97u8, 116u8, 97u8];
    proof {
        assert(r@ =~= key_data());
    }
    r
}

/// The bytes of the version string `2.0`, as a vector.
pub fn two_zero_bytes() -> (r: Vec<u8>)
    ensures
        r@ == two_zero(),
{
    let r: Vec<u8> = vec![50u8, 46u8, 48u8];
    proof {
        assert(r@ =~= two_zero());
    }
    r
}

/// The JSON value of an id.
pub fn id_to_json(id: &Id) -> (r: Json)
    ensures
        jval_of(r) == id_jval(id@),
        wf_jval(jval_of(r)),
{
    match id {
        Id::Null => Json::Null,
        Id::Number(n) => Json::Int(*n as i128),
        Id::Str(s) => Json::Str(clone_bytes(s)),
    }
}

/// The JSON value of an error object.
pub fn err_to_json(e: &ErrorObject) -> (r: Json)
    requires
        err_wf(e@),
    ensures
        jval_of(r) == err_jval(e@),
        wf_jval(jval_of(r)),
{
    let mut fields: Vec<(Vec<u8>, Json)> = Vec::new();
    fields.push((key_code_bytes(), Json::Int(e.code as i128)));
    fields.push((key_message_bytes(), Json::Str(clone_bytes(&e.message))));
    match &e.data {
        Option::Some(d) => {
            fields.push((key_data_bytes(), d.deep_clone()));
        },
        Option::None => {},
    }
    proof {
        assert(fields@[0].0@ == key_code());
        assert(jval_of(fields@[0].1) == JVal::Int(e@.code as i128));
        assert(fields@[1].0@ == key_message());
        assert(jval_of(fields@[1].1) == JVal::Str(e@.message));
        if e@.data is Some {
            assert(fields@[2].0@ == key_data());
            assert(jval_of(fields@[2].1) == e@.data->Some_0);
        }
    }
    let r = Json::Obj(fields);
    proof {
        assert(jval_of(r) is Obj);
        let fs = jval_of(r)->Obj_0;
        let target = err_jval(e@)->Obj_0;
        assert(fs.len() == target.len());
        assert forall|k: int| 0 <= k < fs.len() implies fs[k] == target[k] by {
            assert(fs[k] == (fields@[k].0@, jval_of(fields@[k].1)));
            if k == 0 {
                assert(target[0] == (key_code(), JVal::Int(e@.code as i128)));
            } else if k == 1 {
                assert(target[1] == (key_message(), JVal::Str(e@.message)));
            } else {
                assert(target[2] == (key_data(), e@.data->Some_0));
            }
        }
        assert(fs =~= target);
        assert forall|k: int| 0 <= k < fs.len() implies wf_jval(#[trigger] fs[k].1) by {
            assert(fs[k] == (fields@[k].0@, jval_of(fields@[k].1)));
        }
        assert(wf_jval(jval_of(r)));
    }
    r
}

/// Encodes a response envelope into its canonical wire bytes: the version
/// marker only when present, then the id, then exactly one payload arm.
pub fn encode_response(r: &Response) -> (out: Vec<u8>)
    requires
        payload_wf(r.payload@),
    ensures
        out@ == spec_enc_response(r.jsonrpc is Some, r.payload@, r.id@),
{
    let mut fields: Vec<(Vec<u8>, Json)> = Vec::new();
    match &r.jsonrpc {
        Option::Some(_) => {
            fields.push((key_jsonrpc_bytes(), Json::Str(two_zero_bytes())));
        },
        Option::None => {},
    }
    fields.push((key_id_bytes(), id_to_json(&r.id)));
    match &r.payload {
        ResponsePayload::Success(v) => {
            fields.push((key_result_bytes(), v.deep_clone()));
        },
        ResponsePayload::Error(e) => {
            fields.push((key_error_bytes(), err_to_json(e)));
        },
    }
    proof {
        let base: int = if r.jsonrpc is Some {
            1
        } else {
            0
        };
        if r.jsonrpc is Some {
            assert(fields@[0].0@ == key_jsonrpc());
            assert(jval_of(fields@[0].1) == JVal::Str(two_zero()));
        }
        assert(fields@[base].0@ == key_id());
        assert(jval_of(fields@[base].1) == id_jval(r.id@));
        match r.payload@ {
            PayloadV::Success(v) => {
                assert(fields@[base + 1].0@ == key_result());
                assert(jval_of(fields@[base + 1].1) == v);
            },
            PayloadV::Error(e) => {
                assert(fields@[base + 1].0@ == key_error());
                assert(jval_of(fields@[base + 1].1) == err_jval(e));
            },
        }
    }
    let obj = Json::Obj(fields);
    proof {
        let fs = jval_of(obj)->Obj_0;
        let target = fields_of(r.jsonrpc is Some, r.payload@, r.id@);
        assert(fs.len() == target.len());
        assert forall|k: int| 0 <= k < fs.len() implies fs[k] == target[k] by {
            assert(fs[k] == (fields@[k].0@, jval_of(fields@[k].1)));
            let base: int = if r.jsonrpc is Some {
                1
            } else {
                0
            };
            if k < base {
                assert(target[0] == (key_jsonrpc(), JVal::Str(two_zero())));
            } else if k == base {
                assert(target[base] == (key_id(), id_jval(r.id@)));
            } else {
                assert(target[base + 1] == (match r.payload@ {
                    PayloadV::Success(v) => (key_result(), v),
                    PayloadV::Error(e) => (key_error(), err_jval(e)),
                }));
            }
        }
        assert(fs =~= target);
        assert forall|k: int| 0 <= k < fs.len() implies wf_jval(#[trigger] fs[k].1) by {
            assert(fs[k] == (fields@[k].0@, jval_of(fields@[k].1)));
        }
        assert(wf_jval(jval_of(obj)));
    }
    let mut out: Vec<u8> = Vec::new();
    encode_value(&obj, &mut out);
    out
}

/// The mathematical model of a decoded envelope.
pub struct RespV {
    /// Whether the version marker was present (and `"2.0"`).
    pub has_version: bool,
    /// The payload.
    pub payload: PayloadV,
    /// The id.
    pub id: IdV,
}

/// Assembles a decoded field list into an envelope, or the exact reason
/// it is rejected.
pub open spec fn spec_assemble(fields: Seq<(Seq<u8>, JVal)>) -> Result<RespV, DecodeError> {
    match spec_scan(fields, scan_init()) {
        Result::Err(e) => Result::Err(e),
        Result::Ok(st) => match st.id {
            Option::None => Result::Err(DecodeError::MissingId),
            Option::Some(idv) => match spec_id_of(idv) {
                Option::None => Result::Err(DecodeError::InvalidId),
                Option::Some(id) => match spec_version_of(st.version) {
                    Option::None => Result::Err(DecodeError::InvalidVersion),
                    Option::Some(hv) => match (st.result, st.error) {
                        (Option::Some(_), Option::Some(_)) => Result::Err(
                            DecodeError::BothResultAndError,
                        ),
                        (Option::None, Option::None) => Result::Err(DecodeError::MissingPayload),
                        (Option::Some(r), Option::None) => Result::Ok(
                            RespV { has_version: hv, payload: PayloadV::Success(r), id },
                        ),
                        (Option::None, Option::Some(e)) => match spec_err_of(e) {
                            Option::None => Result::Err(DecodeError::InvalidErrorObject),
                            Option::Some(eo) => Result::Ok(
                                RespV { has_version: hv, payload: PayloadV::Error(eo), id },
                            ),
                        },
                    },
                },
            },
        },
    }
}

/// Decodes a byte buffer as a response envelope.
pub open spec fn spec_decode_response(s: Seq<u8>) -> Result<RespV, DecodeError> {
    match spec_parse_json(s) {
        Option::None => Result::Err(DecodeError::Syntax),
        Option::Some(v) => match v {
            JVal::Obj(fields) => spec_assemble(fields),
            _ => Result::Err(DecodeError::Syntax),
        },
    }
}

/// The model of an optional decoded JSON slot.
pub open spec fn opt_jval(o: Option<Json>) -> Option<JVal> {
    match o {
        Option::Some(j) => Option::Some(jval_of(j)),
        Option::None => Option::None,
    }
}

/// The model of an optional message slot.
pub open spec fn opt_bytes(o: Option<Vec<u8>>) -> Option<Seq<u8>> {
    match o {
        Option::Some(b) => Option::Some(b@),
        Option::None => Option::None,
    }
}

/// The id a JSON value stands for, if any.
pub fn id_from_json(j: &Json) -> (r: Option<Id>)
    ensures
        match r {
            Option::Some(id) => spec_id_of(jval_of(*j)) == Option::Some(id@),
            Option::None => spec_id_of(jval_of(*j)) is None,
        },
{
    match j {
        Json::Null => Option::Some(Id::Null),
        Json::Int(n) => {
            if 0 <= *n && *n < 0x1_0000_0000_0000_0000i128 {
                Option::Some(Id::Number(*n as u64))
            } else {
                Option::None
            }
        },
        Json::Str(s) => Option::Some(Id::Str(clone_bytes(s))),
        _ => Option::None,
    }
}

/// The error object a JSON value stands for, or why it is none.
#[verifier::loop_isolation(false)]
pub fn err_from_json(j: &Json) -> (r: Result<ErrorObject, DecodeError>)
    requires
        wf_jval(jval_of(*j)),
    ensures
        match spec_err_of(jval_of(*j)) {
            Option::Some(ev) => r matches Result::Ok(eo) && eo@ == ev && err_wf(ev),
            Option::None => r == Result::<ErrorObject, DecodeError>::Err(
                DecodeError::InvalidErrorObject,
            ),
        },
{
    match j {
        Json::Obj(fields) => {
            let ghost ef: Seq<(Seq<u8>, JVal)> = jval_of(*j)->Obj_0;
            proof {
                assert forall|t: int| 0 <= t < fields@.len() implies ef[t] == (
                    fields@[t].0@,
                    jval_of(fields@[t].1),
                ) by {}
            }
            let kc = key_code_bytes();
            let km = key_message_bytes();
            let kd = key_data_bytes();
            let mut code: Option<i128> = Option::None;
            let mut message: Option<Vec<u8>> = Option::None;
            let mut data: Option<Json> = Option::None;
            let mut k: usize = 0;
            proof {
                assert(ef.skip(0) =~= ef);
            }
            while k < fields.len()
                invariant
                    k <= fields.len(),
                    spec_err_scan(ef, Option::None, Option::None, Option::None) == spec_err_scan(
                        ef.skip(k as int),
                        code,
                        opt_bytes(message),
                        opt_jval(data),
                    ),
                    opt_jval(data) matches Option::Some(x) ==> wf_jval(x),
                decreases fields.len() - k,
            {
                proof {
                    assert(ef.skip(k as int)[0] == ef[k as int]);
                    assert(ef.skip(k as int).drop_first() =~= ef.skip(k + 1 as int));
                }
                let pair = &fields[k];
                if bytes_eq(pair.0.as_slice(), kc.as_slice()) {
                    if code.is_some() {
                        return Result::Err(DecodeError::InvalidErrorObject);
                    }
                    match &pair.1 {
                        Json::Int(n) => {
                            code = Option::Some(*n);
                        },
                        _ => {
                            return Result::Err(DecodeError::InvalidErrorObject);
                        },
                    }
                } else if bytes_eq(pair.0.as_slice(), km.as_slice()) {
                    if message.is_some() {
                        return Result::Err(DecodeError::InvalidErrorObject);
                    }
                    match &pair.1 {
                        Json::Str(s) => {
                            message = Option::Some(clone_bytes(s));
                        },
                        _ => {
                            return Result::Err(DecodeError::InvalidErrorObject);
                        },
                    }
                } else if bytes_eq(pair.0.as_slice(), kd.as_slice()) {
                    if data.is_some() {
                        return Result::Err(DecodeError::InvalidErrorObject);
                    }
                    data = Option::Some(pair.1.deep_clone());
                }
                k = k + 1;
            }
            proof {
                assert(ef.skip(k as int) =~= Seq::<(Seq<u8>, JVal)>::empty());
            }
            let c = match code {
                Option::Some(c) => c,
                Option::None => {
                    return Result::Err(DecodeError::InvalidErrorObject);
                },
            };
            let m = match message {
                Option::Some(m) => m,
                Option::None => {
                    return Result::Err(DecodeError::InvalidErrorObject);
                },
            };
            if c < -0x8000_0000_0000_0000i128 || c >= 0x8000_0000_0000_0000i128 {
                return Result::Err(DecodeError::InvalidErrorObject);
            }
            let d: Option<Json> = match data {
                Option::Some(dv) => {
                    if dv.is_null() {
                        Option::None
                    } else {
                        Option::Some(dv)
                    }
                },
                Option::None => Option::None,
            };
            Result::Ok(ErrorObject { code: c as i64, message: m, data: d })
        },
        _ => Result::Err(DecodeError::InvalidErrorObject),
    }
}

/// Assembles decoded object fields into a response envelope, or the exact
/// reason the envelope is rejected.
#[verifier::loop_isolation(false)]
pub fn assemble_fields(fields: &Vec<(Vec<u8>, Json)>) -> (r: Result<Response, DecodeError>)
    requires
        forall|t: int| 0 <= t < fields@.len() ==> wf_jval(#[trigger] jfields_of(fields@)[t].1),
    ensures
        match r {
            Result::Ok(resp) => spec_assemble(jfields_of(fields@)) matches Result::Ok(rv) && (
            resp.jsonrpc is Some) == rv.has_version && resp.payload@ == rv.payload && resp.id@
                == rv.id && payload_wf(resp.payload@),
            Result::Err(e) => spec_assemble(jfields_of(fields@)) == Result::<
                RespV,
                DecodeError,
            >::Err(e),
        },
{
    let ghost ef: Seq<(Seq<u8>, JVal)> = jfields_of(fields@);
    let kj = key_jsonrpc_bytes();
    let kr = key_result_bytes();
    let ke = key_error_bytes();
    let ki = key_id_bytes();
    let mut version: Option<Json> = Option::None;
    let mut result: Option<Json> = Option::None;
    let mut error: Option<Json> = Option::None;
    let mut idslot: Option<Json> = Option::None;
    let mut k: usize = 0;
    proof {
        assert(ef.skip(0) =~= ef);
    }
    while k < fields.len()
        invariant
            k <= fields.len(),
            spec_scan(ef, scan_init()) == spec_scan(
                ef.skip(k as int),
                ScanState {
                    version: opt_jval(version),
                    result: opt_jval(result),
                    error: opt_jval(error),
                    id: opt_jval(idslot),
                },
            ),
            opt_jval(result) matches Option::Some(x) ==> wf_jval(x),
            opt_jval(error) matches Option::Some(x) ==> wf_jval(x),
        decreases fields.len() - k,
    {
        proof {
            assert(ef.skip(k as int)[0] == ef[k as int]);
            assert(ef[k as int] == (fields@[k as int].0@, jval_of(fields@[k as int].1)));
            assert(ef.skip(k as int).drop_first() =~= ef.skip(k + 1 as int));
        }
        let pair = &fields[k];
        if bytes_eq(pair.0.as_slice(), kj.as_slice()) {
            if version.is_some() {
                return Result::Err(DecodeError::DuplicateField);
            }
            version = Option::Some(pair.1.deep_clone());
        } else if bytes_eq(pair.0.as_slice(), kr.as_slice()) {
            if result.is_some() {
                return Result::Err(DecodeError::DuplicateField);
            }
            result = Option::Some(pair.1.deep_clone());
        } else if bytes_eq(pair.0.as_slice(), ke.as_slice()) {
            if error.is_some() {
                return Result::Err(DecodeError::DuplicateField);
            }
            error = Option::Some(pair.1.deep_clone());
        } else if bytes_eq(pair.0.as_slice(), ki.as_slice()) {
            if idslot.is_some() {
                return Result::Err(DecodeError::DuplicateField);
            }
            idslot = Option::Some(pair.1.deep_clone());
        }
        k = k + 1;
    }
    proof {
        assert(ef.skip(k as int) =~= Seq::<(Seq<u8>, JVal)>::empty());
    }
    let jid = match idslot {
        Option::Some(jid) => jid,
        Option::None => {
            return Result::Err(DecodeError::MissingId);
        },
    };
    let id = match id_from_json(&jid) {
        Option::Some(id) => id,
        Option::None => {
            return Result::Err(DecodeError::InvalidId);
        },
    };
    let tz = two_zero_bytes();
    let has_version: bool = match &version {
        Option::None => false,
        Option::Some(v) => match v {
            Json::Null => false,
            Json::Str(s) => {
                if bytes_eq(s.as_slice(), tz.as_slice()) {
                    true
                } else {
                    return Result::Err(DecodeError::InvalidVersion);
                }
            },
            _ => {
                return Result::Err(DecodeError::InvalidVersion);
            },
        },
    };
    let payload: ResponsePayload = match (result, error) {
        (Option::Some(_), Option::Some(_)) => {
            return Result::Err(DecodeError::BothResultAndError);
        },
        (Option::None, Option::None) => {
            return Result::Err(DecodeError::MissingPayload);
        },
        (Option::Some(rv), Option::None) => ResponsePayload::Success(rv),
        (Option::None, Option::Some(ej)) => {
            match err_from_json(&ej) {
                Result::Ok(eo) => ResponsePayload::Error(eo),
                Result::Err(e) => {
                    return Result::Err(e);
                },
            }
        },
    };
    let jsonrpc: Option<TwoPointZero> = if has_version {
        Option::Some(TwoPointZero)
    } else {
        Option::None
    };
    Result::Ok(Response { jsonrpc, payload, id, extensions: http::Extensions::new() })
}

/// Decodes a byte buffer as a response envelope: fails on anything but a
/// JSON object carrying a mandatory id and exactly one of `result` and
/// `error`; tolerates an absent or `null` version marker and ignores
/// unknown fields.
pub fn decode_response(s: &[u8]) -> (r: Result<Response, DecodeError>)
    ensures
        match r {
            Result::Ok(resp) => spec_decode_response(s@) matches Result::Ok(rv) && (resp.jsonrpc
                is Some) == rv.has_version && resp.payload@ == rv.payload && resp.id@ == rv.id
                && payload_wf(resp.payload@),
            Result::Err(e) => spec_decode_response(s@) == Result::<RespV, DecodeError>::Err(e),
        },
{
    match parse_json(s) {
        Option::None => Result::Err(DecodeError::Syntax),
        Option::Some(v) => match v {
            Json::Obj(fields) => {
                proof {
                    let ef = jval_of(Json::Obj(fields))->Obj_0;
                    assert(ef.len() == jfields_of(fields@).len());
                    assert forall|t: int| 0 <= t < fields@.len() implies ef[t] == jfields_of(
                        fields@,
                    )[t] by {}
                    assert(ef =~= jfields_of(fields@));
                    assert forall|t: int|
                        0 <= t < fields@.len() implies wf_jval(
                        #[trigger] jfields_of(fields@)[t].1,
                    ) by {
                        assert(wf_jval(ef[t].1));
                    }
                }
                assemble_fields(&fields)
            },
            _ => Result::Err(DecodeError::Syntax),
        },
    }
}

/// The bytes of the key `method`.
pub open spec fn key_method() -> Seq<u8> {
    seq![109u8, 101u8, 116u8, 104u8, 111u8, 100u8]
}

/// The bytes of the key `params`.
pub open spec fn key_params() -> Seq<u8> {
    seq![112u8, 97u8, 114u8, 97u8, 109u8, 115u8]
}

/// The bytes of the key `subscription`.
pub open spec fn key_subscription() -> Seq<u8> {
    seq![115u8, 117u8, 98u8, 115u8, 99u8, 114u8, 105u8, 112u8, 116u8, 105u8, 111u8, 110u8]
}

/// Why a byte buffer is not a subscription notification.
#[derive(Debug, Clone, Copy, PartialEq, Eq, Structural)]
pub enum NotifDecodeError {
    /// The buffer is not the supported JSON subset, or not an object.
    Syntax,
    /// A recognized field appears twice.
    DuplicateField,
    /// The `method` field is missing or not a string.
    MissingMethod,
    /// The envelope carries an `id`: it is a call or response, not a
    /// notification.
    HasId,
    /// The `params` field is missing or not an object.
    MissingParams,
    /// The `subscription` field is missing from the params.
    MissingSubscription,
    /// The `subscription` field is not an id.
    InvalidSubscriptionId,
    /// Both `result` and `error` are present in the params.
    BothResultAndError,
    /// Neither `result` nor `error` is present in the params.
    MissingPayload,
}

/// The body of a subscription notification: the secondary result or error.
pub enum NoteBodyV {
    /// A `result` payload.
    Result(JVal),
    /// An `error` payload.
    Error(JVal),
}

/// The mathematical model of a decoded subscription notification.
pub struct NoteV {
    /// The method name.
    pub method: Seq<u8>,
    /// The subscription the payload belongs to.
    pub subscription: IdV,
    /// The payload.
    pub body: NoteBodyV,
}

/// Walks notification envelope fields: `method`, `params`, a forbidden
/// `id`; everything else (the version marker included) is ignored.
pub open spec fn spec_notif_scan(
    fields: Seq<(Seq<u8>, JVal)>,
    method: Option<JVal>,
    params: Option<JVal>,
    saw_id: bool,
) -> Result<(Option<JVal>, Option<JVal>, bool), NotifDecodeError>
    decreases fields.len(),
{
    if fields.len() == 0 {
        Result::Ok((method, params, saw_id))
    } else {
        let key = fields[0].0;
        let v = fields[0].1;
        if key == key_method() {
            if method is Some {
                Result::Err(NotifDecodeError::DuplicateField)
            } else {
                spec_notif_scan(fields.drop_first(), Option::Some(v), params, saw_id)
            }
        } else if key == key_params() {
            if params is Some {
                Result::Err(NotifDecodeError::DuplicateField)
            } else {
                spec_notif_scan(fields.drop_first(), method, Option::Some(v), saw_id)
            }
        } else if key == key_id() {
            spec_notif_scan(fields.drop_first(), method, params, true)
        } else {
            spec_notif_scan(fields.drop_first(), method, params, saw_id)
        }
    }
}

/// Walks subscription params fields: `subscription`, `result`, `error`.
pub open spec fn spec_sub_scan(
    fields: Seq<(Seq<u8>, JVal)>,
    sub: Option<JVal>,
    result: Option<JVal>,
    error: Option<JVal>,
) -> Result<(Option<JVal>, Option<JVal>, Option<JVal>), NotifDecodeError>
    decreases fields.len(),
{
    if fields.len() == 0 {
        Result::Ok((sub, result, error))
    } else {
        let key = fields[0].0;
        let v = fields[0].1;
        if key == key_subscription() {
            if sub is Some {
                Result::Err(NotifDecodeError::DuplicateField)
            } else {
                spec_sub_scan(fields.drop_first(), Option::Some(v), result, error)
            }
        } else if key == key_result() {
            if result is Some {
                Result::Err(NotifDecodeError::DuplicateField)
            } else {
                spec_sub_scan(fields.drop_first(), sub, Option::Some(v), error)
            }
        } else if key == key_error() {
            if error is Some {
                Result::Err(NotifDecodeError::DuplicateField)
            } else {
                spec_sub_scan(fields.drop_first(), sub, result, Option::Some(v))
            }
        } else {
            spec_sub_scan(fields.drop_first(), sub, result, error)
        }
    }
}

/// Assembles scanned notification fields into a model, or the exact
/// reason the envelope is rejected.
pub open spec fn spec_assemble_notif(fields: Seq<(Seq<u8>, JVal)>) -> Result<
    NoteV,
    NotifDecodeError,
> {
    match spec_notif_scan(fields, Option::None, Option::None, false) {
        Result::Err(e) => Result::Err(e),
        Result::Ok((method, params, saw_id)) => match method {
            Option::Some(JVal::Str(m)) => if saw_id {
                Result::Err(NotifDecodeError::HasId)
            } else {
                match params {
                    Option::Some(JVal::Obj(pf)) => match spec_sub_scan(
                        pf,
                        Option::None,
                        Option::None,
                        Option::None,
                    ) {
                        Result::Err(e) => Result::Err(e),
                        Result::Ok((sub, result, error)) => match sub {
                            Option::None => Result::Err(NotifDecodeError::MissingSubscription),
                            Option::Some(sv) => match spec_id_of(sv) {
                                Option::None => Result::Err(
                                    NotifDecodeError::InvalidSubscriptionId,
                                ),
                                Option::Some(sid) => match (result, error) {
                                    (Option::Some(_), Option::Some(_)) => Result::Err(
                                        NotifDecodeError::BothResultAndError,
                                    ),
                                    (Option::None, Option::None) => Result::Err(
                                        NotifDecodeError::MissingPayload,
                                    ),
                                    (Option::Some(r), Option::None) => Result::Ok(
                                        NoteV {
                                            method: m,
                                            subscription: sid,
                                            body: NoteBodyV::Result(r),
                                        },
                                    ),
                                    (Option::None, Option::Some(e)) => Result::Ok(
                                        NoteV {
                                            method: m,
                                            subscription: sid,
                                            body: NoteBodyV::Error(e),
                                        },
                                    ),
                                },
                            },
                        },
                    },
                    _ => Result::Err(NotifDecodeError::MissingParams),
                }
            },
            _ => Result::Err(NotifDecodeError::MissingMethod),
        },
    }
}

/// Decodes a byte buffer as a subscription notification.
pub open spec fn spec_decode_notification(s: Seq<u8>) -> Result<NoteV, NotifDecodeError> {
    match spec_parse_json(s) {
        Option::None => Result::Err(NotifDecodeError::Syntax),
        Option::Some(v) => match v {
            JVal::Obj(fields) => spec_assemble_notif(fields),
            _ => Result::Err(NotifDecodeError::Syntax),
        },
    }
}

/// A decoded subscription notification: the method name, and the payload
/// carrying the subscription id with a result or an error value.
#[derive(Debug, PartialEq, Eq)]
pub enum SubscriptionNote {
    /// A `result` payload.
    Result(SubscriptionPayload),
    /// An `error` payload.
    Error(SubscriptionPayloadError),
}

/// The model of a decoded notification value.
pub open spec fn note_view(method: Seq<u8>, n: SubscriptionNote) -> NoteV {
    match n {
        SubscriptionNote::Result(p) => NoteV {
            method,
            subscription: p.subscription@,
            body: NoteBodyV::Result(jval_of(p.result)),
        },
        SubscriptionNote::Error(p) => NoteV {
            method,
            subscription: p.subscription@,
            body: NoteBodyV::Error(jval_of(p.error)),
        },
    }
}

/// Decodes a byte buffer as a subscription notification: an object with
/// a string `method`, no `id`, and params carrying a `subscription` id
/// and exactly one of `result` and `error`.
#[verifier::loop_isolation(false)]
pub fn decode_notification(s: &[u8]) -> (r: Result<(Vec<u8>, SubscriptionNote), NotifDecodeError>)
    ensures
        match r {
            Result::Ok((m, note)) => spec_decode_notification(s@) == Result::<
                NoteV,
                NotifDecodeError,
            >::Ok(note_view(m@, note)),
            Result::Err(e) => spec_decode_notification(s@) == Result::<
                NoteV,
                NotifDecodeError,
            >::Err(e),
        },
{
    let fields = match parse_json(s) {
        Option::Some(Json::Obj(fields)) => fields,
        Option::Some(_) => {
            return Result::Err(NotifDecodeError::Syntax);
        },
        Option::None => {
            return Result::Err(NotifDecodeError::Syntax);
        },
    };
    let ghost ef: Seq<(Seq<u8>, JVal)> = jfields_of(fields@);
    proof {
        let pf = jval_of(Json::Obj(fields))->Obj_0;
        assert(pf.len() == ef.len());
        assert forall|t: int| 0 <= t < fields@.len() implies pf[t] == ef[t] by {}
        assert(pf =~= ef);
    }
    let km = key_method_bytes();
    let kp = key_params_bytes();
    let ki = key_id_bytes();
    let mut method: Option<Json> = Option::None;
    let mut params: Option<Json> = Option::None;
    let mut saw_id = false;
    let mut k: usize = 0;
    proof {
        assert(ef.skip(0) =~= ef);
    }
    while k < fields.len()
        invariant
            k <= fields.len(),
            spec_notif_scan(ef, Option::None, Option::None, false) == spec_notif_scan(
                ef.skip(k as int),
                opt_jval(method),
                opt_jval(params),
                saw_id,
            ),
        decreases fields.len() - k,
    {
        proof {
            assert(ef.skip(k as int)[0] == ef[k as int]);
            assert(ef[k as int] == (fields@[k as int].0@, jval_of(fields@[k as int].1)));
            assert(ef.skip(k as int).drop_first() =~= ef.skip(k + 1 as int));
        }
        let pair = &fields[k];
        if bytes_eq(pair.0.as_slice(), km.as_slice()) {
            if method.is_some() {
                return Result::Err(NotifDecodeError::DuplicateField);
            }
            method = Option::Some(pair.1.deep_clone());
        } else if bytes_eq(pair.0.as_slice(), kp.as_slice()) {
            if params.is_some() {
                return Result::Err(NotifDecodeError::DuplicateField);
            }
            params = Option::Some(pair.1.deep_clone());
        } else if bytes_eq(pair.0.as_slice(), ki.as_slice()) {
            saw_id = true;
        }
        k = k + 1;
    }
    proof {
        assert(ef.skip(k as int) =~= Seq::<(Seq<u8>, JVal)>::empty());
    }
    let m: Vec<u8> = match method {
        Option::Some(Json::Str(m)) => m,
        _ => {
            return Result::Err(NotifDecodeError::MissingMethod);
        },
    };
    if saw_id {
        return Result::Err(NotifDecodeError::HasId);
    }
    let pfields: Vec<(Vec<u8>, Json)> = match params {
        Option::Some(Json::Obj(pf)) => pf,
        _ => {
            return Result::Err(NotifDecodeError::MissingParams);
        },
    };
    let ghost pv: Seq<(Seq<u8>, JVal)> = jfields_of(pfields@);
    proof {
        let inner = jval_of(Json::Obj(pfields))->Obj_0;
        assert(inner.len() == pv.len());
        assert forall|t: int| 0 <= t < pfields@.len() implies inner[t] == pv[t] by {}
        assert(inner =~= pv);
    }
    let ks = key_subscription_bytes();
    let kr = key_result_bytes();
    let ke = key_error_bytes();
    let mut sub: Option<Json> = Option::None;
    let mut result: Option<Json> = Option::None;
    let mut error: Option<Json> = Option::None;
    let mut t: usize = 0;
    proof {
        assert(pv.skip(0) =~= pv);
    }
    while t < pfields.len()
        invariant
            t <= pfields.len(),
            spec_sub_scan(pv, Option::None, Option::None, Option::None) == spec_sub_scan(
                pv.skip(t as int),
                opt_jval(sub),
                opt_jval(result),
                opt_jval(error),
            ),
        decreases pfields.len() - t,
    {
        proof {
            assert(pv.skip(t as int)[0] == pv[t as int]);
            assert(pv[t as int] == (pfields@[t as int].0@, jval_of(pfields@[t as int].1)));
            assert(pv.skip(t as int).drop_first() =~= pv.skip(t + 1 as int));
        }
        let pair = &pfields[t];
        if bytes_eq(pair.0.as_slice(), ks.as_slice()) {
            if sub.is_some() {
                return Result::Err(NotifDecodeError::DuplicateField);
            }
            sub = Option::Some(pair.1.deep_clone());
        } else if bytes_eq(pair.0.as_slice(), kr.as_slice()) {
            if result.is_some() {
                return Result::Err(NotifDecodeError::DuplicateField);
            }
            result = Option::Some(pair.1.deep_clone());
        } else if bytes_eq(pair.0.as_slice(), ke.as_slice()) {
            if error.is_some() {
                return Result::Err(NotifDecodeError::DuplicateField);
            }
            error = Option::Some(pair.1.deep_clone());
        }
        t = t + 1;
    }
    proof {
        assert(pv.skip(t as int) =~= Seq::<(Seq<u8>, JVal)>::empty());
    }
    let sj = match sub {
        Option::Some(sj) => sj,
        Option::None => {
            return Result::Err(NotifDecodeError::MissingSubscription);
        },
    };
    let sid = match id_from_json(&sj) {
        Option::Some(sid) => sid,
        Option::None => {
            return Result::Err(NotifDecodeError::InvalidSubscriptionId);
        },
    };
    match (result, error) {
        (Option::Some(_), Option::Some(_)) => Result::Err(NotifDecodeError::BothResultAndError),
        (Option::None, Option::None) => Result::Err(NotifDecodeError::MissingPayload),
        (Option::Some(rv), Option::None) => Result::Ok(
            (m, SubscriptionNote::Result(SubscriptionPayload { subscription: sid, result: rv })),
        ),
        (Option::None, Option::Some(ev)) => Result::Ok(
            (m, SubscriptionNote::Error(SubscriptionPayloadError { subscription: sid, error: ev })),
        ),
    }
}

/// The bytes of the key `method`, as a vector.
pub fn key_method_bytes() -> (r: Vec<u8>)
    ensures
        r@ == key_method(),
{
    let r: Vec<u8> = vec![109u8, 101u8, 116u8, 104u8, 111u8, 100u8];
    proof {
        assert(r@ =~= key_method());
    }
    r
}

/// The bytes of the key `params`, as a vector.
pub fn key_params_bytes() -> (r: Vec<u8>)
    ensures
        r@ == key_params(),
{
    let r: Vec<u8> = vec![112u8, 97u8, 114u8, 97u8, 109u8, 115u8];
    proof {
        assert(r@ =~= key_params());
    }
    r
}

/// The bytes of the key `subscription`, as a vector.
pub fn key_subscription_bytes() -> (r: Vec<u8>)
    ensures
        r@ == key_subscription(),
{
    let r: Vec<u8> = vec![115u8, 117u8, 98u8, 115u8, 99u8, 114u8, 105u8, 112u8, 116u8, 105u8, 111u8, 110u8];
    proof {
        assert(r@ =~= key_subscription());
    }
    r
}

/// Whether some field carries the given key.
pub open spec fn has_key(fields: Seq<(Seq<u8>, JVal)>, key: Seq<u8>) -> bool {
    exists|i: int| 0 <= i < fields.len() && #[trigger] fields[i].0 == key
}

/// Whether some field carries the given key with the given value.
pub open spec fn has_key_val(fields: Seq<(Seq<u8>, JVal)>, key: Seq<u8>, v: JVal) -> bool {
    exists|i: int| 0 <= i < fields.len() && #[trigger] fields[i].0 == key && fields[i].1 == v
}

/// Peeling the first field off a key search.
pub proof fn lemma_has_key_unfold(fields: Seq<(Seq<u8>, JVal)>, key: Seq<u8>)
    requires
        fields.len() > 0,
    ensures
        has_key(fields, key) <==> (fields[0].0 == key || has_key(fields.drop_first(), key)),
{
    if has_key(fields, key) {
        let i = choose|i: int| 0 <= i < fields.len() && #[trigger] fields[i].0 == key;
        if i > 0 {
            assert(fields.drop_first()[i - 1] == fields[i]);
            assert(has_key(fields.drop_first(), key));
        }
    }
    if fields[0].0 == key {
        assert(has_key(fields, key));
    }
    if has_key(fields.drop_first(), key) {
        let i = choose|i: int|
            0 <= i < fields.drop_first().len() && #[trigger] fields.drop_first()[i].0 == key;
        assert(fields[i + 1] == fields.drop_first()[i]);
        assert(has_key(fields, key));
    }
}

/// Peeling the first field off a key-and-value search.
pub proof fn lemma_has_key_val_unfold(fields: Seq<(Seq<u8>, JVal)>, key: Seq<u8>, v: JVal)
    requires
        fields.len() > 0,
    ensures
        has_key_val(fields, key, v) <==> ((fields[0].0 == key && fields[0].1 == v) || has_key_val(
            fields.drop_first(),
            key,
            v,
        )),
{
    if has_key_val(fields, key, v) {
        let i = choose|i: int|
            0 <= i < fields.len() && #[trigger] fields[i].0 == key && fields[i].1 == v;
        if i > 0 {
            assert(fields.drop_first()[i - 1] == fields[i]);
            assert(has_key_val(fields.drop_first(), key, v));
        }
    }
    if fields[0].0 == key && fields[0].1 == v {
        assert(has_key_val(fields, key, v));
    }
    if has_key_val(fields.drop_first(), key, v) {
        let i = choose|i: int|
            0 <= i < fields.drop_first().len() && #[trigger] fields.drop_first()[i].0 == key
                && fields.drop_first()[i].1 == v;
        assert(fields[i + 1] == fields.drop_first()[i]);
        assert(has_key_val(fields, key, v));
    }
}

/// What a completed scan holds: a slot is filled exactly when the initial
/// state already held it or its key occurs, and the version slot's value
/// comes from a `jsonrpc` field.
pub proof fn lemma_scan_tracks(fields: Seq<(Seq<u8>, JVal)>, st: ScanState)
    ensures
        match spec_scan(fields, st) {
            Result::Ok(st2) => (st2.result is Some <==> (st.result is Some || has_key(
                fields,
                key_result(),
            ))) && (st2.error is Some <==> (st.error is Some || has_key(fields, key_error()))) && (
            st2.id is Some <==> (st.id is Some || has_key(fields, key_id()))) && (st2.version
                == st.version || (st2.version matches Option::Some(x) && has_key_val(
                fields,
                key_jsonrpc(),
                x,
            ))),
            Result::Err(e) => e == DecodeError::DuplicateField,
        },
    decreases fields.len(),
{
    if fields.len() == 0 {
    } else {
        lemma_has_key_unfold(fields, key_result());
        lemma_has_key_unfold(fields, key_error());
        lemma_has_key_unfold(fields, key_id());
        lemma_has_key_unfold(fields, key_jsonrpc());
        let key = fields[0].0;
        let v = fields[0].1;
        lemma_has_key_val_unfold(fields, key_jsonrpc(), v);
        if spec_scan(fields, st) is Ok {
            let st2 = spec_scan(fields, st)->Ok_0;
            match st2.version {
                Option::Some(x) => {
                    lemma_has_key_val_unfold(fields, key_jsonrpc(), x);
                },
                Option::None => {},
            }
        }
        if key == key_jsonrpc() {
            if !(st.version is Some) {
                lemma_scan_tracks(
                    fields.drop_first(),
                    ScanState {
                        version: Option::Some(v),
                        result: st.result,
                        error: st.error,
                        id: st.id,
                    },
                );
            }
        } else if key == key_result() {
            if !(st.result is Some) {
                lemma_scan_tracks(
                    fields.drop_first(),
                    ScanState {
                        version: st.version,
                        result: Option::Some(v),
                        error: st.error,
                        id: st.id,
                    },
                );
            }
        } else if key == key_error() {
            if !(st.error is Some) {
                lemma_scan_tracks(
                    fields.drop_first(),
                    ScanState {
                        version: st.version,
                        result: st.result,
                        error: Option::Some(v),
                        id: st.id,
                    },
                );
            }
        } else if key == key_id() {
            if !(st.id is Some) {
                lemma_scan_tracks(
                    fields.drop_first(),
                    ScanState {
                        version: st.version,
                        result: st.result,
                        error: st.error,
                        id: Option::Some(v),
                    },
                );
            }
        } else {
            lemma_scan_tracks(fields.drop_first(), st);
        }
    }
}

/// LAW: an envelope carrying both `result` and `error` never decodes.
pub proof fn lemma_both_arms_rejected(fields: Seq<(Seq<u8>, JVal)>)
    requires
        has_key(fields, key_result()),
        has_key(fields, key_error()),
    ensures
        spec_assemble(fields) is Err,
{
    lemma_scan_tracks(fields, scan_init());
}

/// LAW: an envelope carrying neither `result` nor `error` never decodes.
pub proof fn lemma_no_payload_rejected(fields: Seq<(Seq<u8>, JVal)>)
    requires
        !has_key(fields, key_result()),
        !has_key(fields, key_error()),
    ensures
        spec_assemble(fields) is Err,
{
    lemma_scan_tracks(fields, scan_init());
}

/// LAW: an envelope without an `id` field never decodes.
pub proof fn lemma_missing_id_rejected(fields: Seq<(Seq<u8>, JVal)>)
    requires
        !has_key(fields, key_id()),
    ensures
        spec_assemble(fields) is Err,
{
    lemma_scan_tracks(fields, scan_init());
}

/// LAW: a version field that is absent everywhere never causes a decode
/// failure, and a decoded envelope then carries no version marker.
pub proof fn lemma_version_omitted(fields: Seq<(Seq<u8>, JVal)>)
    requires
        !has_key(fields, key_jsonrpc()),
    ensures
        spec_assemble(fields) != Result::<RespV, DecodeError>::Err(DecodeError::InvalidVersion),
        spec_assemble(fields) matches Result::Ok(rv) ==> rv.has_version == false,
{
    lemma_scan_tracks(fields, scan_init());
    match spec_scan(fields, scan_init()) {
        Result::Ok(st2) => {
            match st2.version {
                Option::Some(x) => {
                    if has_key_val(fields, key_jsonrpc(), x) {
                        let i = choose|i: int|
                            0 <= i < fields.len() && #[trigger] fields[i].0 == key_jsonrpc()
                                && fields[i].1 == x;
                        assert(has_key(fields, key_jsonrpc()));
                    }
                },
                Option::None => {},
            }
        },
        Result::Err(_) => {},
    }
}

/// LAW: a version field that is `null` wherever it occurs never causes a
/// decode failure, and a decoded envelope then carries no version marker.
pub proof fn lemma_version_null(fields: Seq<(Seq<u8>, JVal)>)
    requires
        forall|i: int|
            0 <= i < fields.len() && #[trigger] fields[i].0 == key_jsonrpc() ==> fields[i].1
                == JVal::Null,
    ensures
        spec_assemble(fields) != Result::<RespV, DecodeError>::Err(DecodeError::InvalidVersion),
        spec_assemble(fields) matches Result::Ok(rv) ==> rv.has_version == false,
{
    lemma_scan_tracks(fields, scan_init());
    match spec_scan(fields, scan_init()) {
        Result::Ok(st2) => {
            match st2.version {
                Option::Some(x) => {
                    if has_key_val(fields, key_jsonrpc(), x) {
                        let i = choose|i: int|
                            0 <= i < fields.len() && #[trigger] fields[i].0 == key_jsonrpc()
                                && fields[i].1 == x;
                        assert(x == JVal::Null);
                    }
                },
                Option::None => {},
            }
        },
        Result::Err(_) => {},
    }
}

/// LAW: a re-encoded envelope without the version marker omits the
/// `jsonrpc` field entirely.
pub proof fn lemma_encode_omits_version(p: PayloadV, id: IdV)
    ensures
        !has_key(fields_of(false, p, id), key_jsonrpc()),
        spec_enc_response(false, p, id) == spec_enc_value(JVal::Obj(fields_of(false, p, id))),
{
    let fields = fields_of(false, p, id);
    assert(key_id().len() == 2 && key_result().len() == 6 && key_error().len() == 5
        && key_jsonrpc().len() == 7);
    assert forall|i: int| 0 <= i < fields.len() implies fields[i].0 != key_jsonrpc() by {
        assert(fields.len() == 2);
        if i == 0 {
            assert(fields[0].0 == key_id());
        } else {
            assert(fields[1].0 == key_result() || fields[1].0 == key_error());
        }
    }
}

/// Scanning the canonical field list fills exactly the expected slots.
pub proof fn lemma_scan_of_fields_of(hv: bool, p: PayloadV, id: IdV)
    ensures
        spec_scan(fields_of(hv, p, id), scan_init()) == Result::<ScanState, DecodeError>::Ok(
            ScanState {
                version: if hv {
                    Option::Some(JVal::Str(two_zero()))
                } else {
                    Option::None
                },
                result: match p {
                    PayloadV::Success(v) => Option::Some(v),
                    PayloadV::Error(_) => Option::None,
                },
                error: match p {
                    PayloadV::Success(_) => Option::None,
                    PayloadV::Error(e) => Option::Some(err_jval(e)),
                },
                id: Option::Some(id_jval(id)),
            },
        ),
{
    let fields = fields_of(hv, p, id);
    assert(key_id().len() == 2 && key_result().len() == 6 && key_error().len() == 5
        && key_jsonrpc().len() == 7);
    let fid = (key_id(), id_jval(id));
    let fpay = match p {
        PayloadV::Success(v) => (key_result(), v),
        PayloadV::Error(e) => (key_error(), err_jval(e)),
    };
    let st1 = ScanState {
        version: if hv {
            Option::Some(JVal::Str(two_zero()))
        } else {
            Option::None
        },
        result: Option::None,
        error: Option::None,
        id: Option::None,
    };
    let st2 = ScanState { version: st1.version, result: st1.result, error: st1.error, id: Option::Some(id_jval(id)) };
    let st3 = ScanState {
        version: st1.version,
        result: match p {
            PayloadV::Success(v) => Option::Some(v),
            PayloadV::Error(_) => Option::None,
        },
        error: match p {
            PayloadV::Success(_) => Option::None,
            PayloadV::Error(e) => Option::Some(err_jval(e)),
        },
        id: Option::Some(id_jval(id)),
    };
    if hv {
        let fver = (key_jsonrpc(), JVal::Str(two_zero()));
        assert(fields.len() == 3);
        assert(fields[0] == fver && fields[1] == fid && fields[2] == fpay);
        assert(fields.drop_first() =~= seq![fid] + seq![fpay]);
        assert((seq![fid] + seq![fpay]).drop_first() =~= seq![fpay]);
        assert(seq![fpay].drop_first() =~= Seq::<(Seq<u8>, JVal)>::empty());
        assert((seq![fid] + seq![fpay])[0] == fid);
        assert(seq![fpay][0] == fpay);
        assert(spec_scan(fields, scan_init()) == spec_scan(seq![fid] + seq![fpay], st1));
        assert(spec_scan(seq![fid] + seq![fpay], st1) == spec_scan(seq![fpay], st2));
        assert(spec_scan(seq![fpay], st2) == spec_scan(Seq::<(Seq<u8>, JVal)>::empty(), st3));
        assert(spec_scan(Seq::<(Seq<u8>, JVal)>::empty(), st3) == Result::<
            ScanState,
            DecodeError,
        >::Ok(st3));
    } else {
        assert(fields.len() == 2);
        assert(fields[0] == fid && fields[1] == fpay);
        assert(fields.drop_first() =~= seq![fpay]);
        assert(seq![fpay].drop_first() =~= Seq::<(Seq<u8>, JVal)>::empty());
        assert(seq![fpay][0] == fpay);
        assert(spec_scan(fields, scan_init()) == spec_scan(seq![fpay], st2));
        assert(spec_scan(seq![fpay], st2) == spec_scan(Seq::<(Seq<u8>, JVal)>::empty(), st3));
        assert(spec_scan(Seq::<(Seq<u8>, JVal)>::empty(), st3) == Result::<
            ScanState,
            DecodeError,
        >::Ok(st3));
    }
}

/// Reading back the canonical error-object value gives the error back,
/// provided its data is not the literal `null` value (which the wire form
/// cannot tell apart from absent data).
pub proof fn lemma_err_of_round(e: ErrV)
    requires
        e.data != Option::Some(JVal::Null),
    ensures
        spec_err_of(err_jval(e)) == Option::Some(e),
{
    let fields = err_jval(e)->Obj_0;
    let fc = (key_code(), JVal::Int(e.code as i128));
    let fm = (key_message(), JVal::Str(e.message));
    assert(key_code().len() == 4 && key_message().len() == 7 && key_data().len() == 4);
    assert(key_code()[0] == 99 && key_data()[0] == 100);
    assert(key_code() != key_data());
    let c0: Option<i128> = Option::None;
    let m0: Option<Seq<u8>> = Option::None;
    let d0: Option<JVal> = Option::None;
    let c1: Option<i128> = Option::Some(e.code as i128);
    let m1: Option<Seq<u8>> = Option::Some(e.message);
    match e.data {
        Option::Some(d) => {
            let fd = (key_data(), d);
            assert(fields =~= seq![fc] + seq![fm] + seq![fd]);
            assert(fields[0] == fc && fields[1] == fm && fields[2] == fd);
            assert(fields.drop_first() =~= seq![fm] + seq![fd]);
            assert((seq![fm] + seq![fd]).drop_first() =~= seq![fd]);
            assert(seq![fd].drop_first() =~= Seq::<(Seq<u8>, JVal)>::empty());
            assert((seq![fm] + seq![fd])[0] == fm);
            assert(seq![fd][0] == fd);
            assert(spec_err_scan(fields, c0, m0, d0) == spec_err_scan(
                seq![fm] + seq![fd],
                c1,
                m0,
                d0,
            ));
            assert(spec_err_scan(seq![fm] + seq![fd], c1, m0, d0) == spec_err_scan(
                seq![fd],
                c1,
                m1,
                d0,
            ));
            assert(spec_err_scan(seq![fd], c1, m1, d0) == spec_err_scan(
                Seq::<(Seq<u8>, JVal)>::empty(),
                c1,
                m1,
                Option::Some(d),
            ));
            assert(spec_err_scan(fields, c0, m0, d0) == Option::Some((c1, m1, Option::Some(d))));
        },
        Option::None => {
            assert(fields =~= seq![fc] + seq![fm]);
            assert(fields[0] == fc && fields[1] == fm);
            assert(fields.drop_first() =~= seq![fm]);
            assert(seq![fm].drop_first() =~= Seq::<(Seq<u8>, JVal)>::empty());
            assert(seq![fm][0] == fm);
            assert(spec_err_scan(fields, c0, m0, d0) == spec_err_scan(seq![fm], c1, m0, d0));
            assert(spec_err_scan(seq![fm], c1, m0, d0) == spec_err_scan(
                Seq::<(Seq<u8>, JVal)>::empty(),
                c1,
                m1,
                d0,
            ));
            assert(spec_err_scan(fields, c0, m0, d0) == Option::Some((c1, m1, d0)));
        },
    }
    assert(spec_err_of(err_jval(e)) matches Option::Some(ev2) && ev2 == e);
}

/// The canonical field list is a well-formed JSON object value.
pub proof fn lemma_fields_of_wf(hv: bool, p: PayloadV, id: IdV)
    requires
        payload_wf(p),
    ensures
        wf_jval(JVal::Obj(fields_of(hv, p, id))),
{
    let fields = fields_of(hv, p, id);
    assert forall|i: int| 0 <= i < fields.len() implies wf_jval(#[trigger] fields[i].1) by {
        let base: int = if hv {
            1
        } else {
            0
        };
        if i < base {
            assert(fields[0].1 == JVal::Str(two_zero()));
        } else if i == base {
            assert(fields[base].1 == id_jval(id));
        } else {
            match p {
                PayloadV::Success(v) => {
                    assert(fields[base + 1].1 == v);
                },
                PayloadV::Error(e) => {
                    assert(fields[base + 1].1 == err_jval(e));
                    let efs = err_jval(e)->Obj_0;
                    assert forall|t: int| 0 <= t < efs.len() implies wf_jval(
                        #[trigger] efs[t].1,
                    ) by {
                        match e.data {
                            Option::Some(d) => {
                                assert(efs[0].1 == JVal::Int(e.code as i128) && efs[1].1
                                    == JVal::Str(e.message) && efs[2].1 == d);
                            },
                            Option::None => {
                                assert(efs[0].1 == JVal::Int(e.code as i128) && efs[1].1
                                    == JVal::Str(e.message));
                            },
                        }
                    }
                },
            }
        }
    }
}

/// LAW: the round trip. Encoding an envelope and decoding the bytes gives
/// the envelope back: same version presence, same payload, same id. The
/// one excluded input is an error payload whose data is the literal
/// `null`, which the wire form cannot tell apart from absent data.
pub proof fn lemma_response_round_trip(hv: bool, p: PayloadV, id: IdV)
    requires
        payload_wf(p),
        p matches PayloadV::Error(e) ==> e.data != Option::Some(JVal::Null),
    ensures
        spec_decode_response(spec_enc_response(hv, p, id)) == Result::<RespV, DecodeError>::Ok(
            RespV { has_version: hv, payload: p, id },
        ),
{
    let fields = fields_of(hv, p, id);
    let obj = JVal::Obj(fields);
    lemma_fields_of_wf(hv, p, id);
    crate::json::lemma_json_round_trip(obj);
    assert(spec_parse_json(spec_enc_response(hv, p, id)) == Option::Some(obj));
    lemma_scan_of_fields_of(hv, p, id);
    match id {
        IdV::Number(n) => {
            assert(spec_id_of(id_jval(id)) == Option::Some(id));
        },
        _ => {},
    }
    match p {
        PayloadV::Error(e) => {
            lemma_err_of_round(e);
        },
        PayloadV::Success(_) => {},
    }
    assert(spec_assemble(fields) == Result::<RespV, DecodeError>::Ok(
        RespV { has_version: hv, payload: p, id },
    ));
}

} // verus!
