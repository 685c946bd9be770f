//! The middleware service abstraction: a uniform call / batch /
//! notification surface, layers that wrap an inner service, and the
//! two-variant [`Either`] combinator that lets one configuration slot
//! hold either of two layer implementations as a tagged union — static
//! dispatch, no virtual table — while behaving exactly as the chosen
//! variant.

use vstd::prelude::*;

use crate::json::{encode_value, jval_of, spec_enc_value, wf_jval, JVal, Json};
use crate::response::{
    id_jval, id_to_json, key_id, key_id_bytes, key_jsonrpc, key_jsonrpc_bytes, key_method,
    key_method_bytes, key_params, key_params_bytes, two_zero, two_zero_bytes, Id, IdV, PayloadV,
    ResponsePayload,
};

verus! {

/// A single method call travelling through the middleware stack.
#[derive(Debug, PartialEq, Eq)]
pub struct Request {
    /// The method name, as raw bytes.
    pub method: Vec<u8>,
    /// The parameters.
    pub params: Json,
    /// The request id.
    pub id: Id,
}

/// The mathematical model of a [`Request`].
pub struct RequestV {
    /// The method name.
    pub method: Seq<u8>,
    /// The parameters.
    pub params: JVal,
    /// The request id.
    pub id: IdV,
}

impl View for Request {
    type V = RequestV;

    open spec fn view(&self) -> RequestV {
        RequestV { method: self.method@, params: jval_of(self.params), id: self.id@ }
    }
}

/// A fire-and-forget notification travelling through the stack.
#[derive(Debug, PartialEq, Eq)]
pub struct Notification {
    /// The method name, as raw bytes.
    pub method: Vec<u8>,
    /// The parameters.
    pub params: Json,
}

/// The mathematical model of a [`Notification`].
pub struct NotificationV {
    /// The method name.
    pub method: Seq<u8>,
    /// The parameters.
    pub params: JVal,
}

impl View for Notification {
    type V = NotificationV;

    open spec fn view(&self) -> NotificationV {
        NotificationV { method: self.method@, params: jval_of(self.params) }
    }
}

/// The fields of an encoded request, in wire order: the canonical version
/// marker, the id, the method, the params.
pub open spec fn request_fields_of(r: RequestV) -> Seq<(Seq<u8>, JVal)> {
    seq![
        (key_jsonrpc(), JVal::Str(two_zero())),
        (key_id(), id_jval(r.id)),
        (key_method(), JVal::Str(r.method)),
        (key_params(), r.params),
    ]
}

/// The canonical encoding of a request.
pub open spec fn spec_enc_request(r: RequestV) -> Seq<u8> {
    spec_enc_value(JVal::Obj(request_fields_of(r)))
}

/// Encodes a request into its canonical wire bytes.
pub fn encode_request(r: &Request) -> (out: Vec<u8>)
    requires
        wf_jval(jval_of(r.params)),
    ensures
        out@ == spec_enc_request(r@),
{
    let mut fields: Vec<(Vec<u8>, Json)> = Vec::new();
    fields.push((key_jsonrpc_bytes(), Json::Str(two_zero_bytes())));
    fields.push((key_id_bytes(), id_to_json(&r.id)));
    fields.push((key_method_bytes(), Json::Str(crate::json::clone_bytes(&r.method))));
    fields.push((key_params_bytes(), r.params.deep_clone()));
    proof {
        assert(fields@[0].0@ == key_jsonrpc() && jval_of(fields@[0].1) == JVal::Str(two_zero()));
        assert(fields@[1].0@ == key_id() && jval_of(fields@[1].1) == id_jval(r.id@));
        assert(fields@[2].0@ == key_method() && jval_of(fields@[2].1) == JVal::Str(r.method@));
        assert(fields@[3].0@ == key_params() && jval_of(fields@[3].1) == jval_of(r.params));
    }
    let obj = Json::Obj(fields);
    proof {
        let fs = jval_of(obj)->Obj_0;
        let target = request_fields_of(r@);
        assert(fs.len() == target.len());
        assert forall|k: int| 0 <= k < fs.len() implies fs[k] == target[k] by {
            assert(fs[k] == (fields@[k].0@, jval_of(fields@[k].1)));
        }
        assert(fs =~= target);
        assert forall|k: int| 0 <= k < fs.len() implies wf_jval(#[trigger] fs[k].1) by {
            assert(fs[k] == (fields@[k].0@, jval_of(fields@[k].1)));
        }
        assert(wf_jval(jval_of(obj)));
    }
    let mut out: Vec<u8> = Vec::new();
    encode_value(&obj, &mut out);
    out
}

/// The models of a batch of requests.
pub open spec fn reqs_of(s: Seq<Request>) -> Seq<RequestV> {
    Seq::new(s.len(), |i: int| s[i]@)
}

/// The models of a batch of response payloads.
pub open spec fn pays_of(s: Seq<ResponsePayload>) -> Seq<PayloadV> {
    Seq::new(s.len(), |i: int| s[i]@)
}

/// A middleware service: one call, batch and notification surface. Each
/// operation's observable result is fixed by the service's own spec
/// functions, so that wrapping and combining services preserves exactly
/// what the contracts say.
pub trait RpcServiceT: Sized {
    /// What a single call returns.
    spec fn call_spec(&self, r: RequestV) -> PayloadV;

    /// What a batch of calls returns.
    spec fn batch_spec(&self, b: Seq<RequestV>) -> Seq<PayloadV>;

    /// Whether a notification is accepted.
    spec fn notification_spec(&self, n: NotificationV) -> bool;

    /// Performs one method call.
    fn call(&self, request: Request) -> (r: ResponsePayload)
        ensures
            r@ == self.call_spec(request@),
    ;

    /// Performs a batch of calls.
    fn batch(&self, batch: Vec<Request>) -> (r: Vec<ResponsePayload>)
        ensures
            pays_of(r@) == self.batch_spec(reqs_of(batch@)),
    ;

    /// Sends a fire-and-forget notification.
    fn notification(&self, n: Notification) -> (r: bool)
        ensures
            r == self.notification_spec(n@),
    ;
}

/// A layer wraps an inner service into another service; layers apply in
/// builder order, outermost first.
pub trait Layer<S>: Sized {
    /// The wrapped service type.
    type Service;

    /// What wrapping produces.
    spec fn layer_spec(&self, inner: S) -> Self::Service;

    /// Wraps the inner service.
    fn layer(&self, inner: S) -> (r: Self::Service)
        ensures
            r == self.layer_spec(inner),
    ;
}

/// A two-variant service (or layer) combinator: one configuration slot,
/// two candidate implementations, chosen at configuration time and
/// dispatched as a tagged union.
#[derive(Debug, PartialEq, Eq)]
pub enum Either<A, B> {
    /// One type of backing service or layer.
    Left(A),
    /// The other type of backing service or layer.
    Right(B),
}

impl<S, A: Layer<S>, B: Layer<S>> Layer<S> for Either<A, B> {
    type Service = Either<A::Service, B::Service>;

    open spec fn layer_spec(&self, inner: S) -> Either<A::Service, B::Service> {
        match self {
            Either::Left(l) => Either::Left(l.layer_spec(inner)),
            Either::Right(l) => Either::Right(l.layer_spec(inner)),
        }
    }

    fn layer(&self, inner: S) -> (r: Either<A::Service, B::Service>) {
        match self {
            Either::Left(l) => Either::Left(l.layer(inner)),
            Either::Right(l) => Either::Right(l.layer(inner)),
        }
    }
}

impl<A: RpcServiceT, B: RpcServiceT> RpcServiceT for Either<A, B> {
    open spec fn call_spec(&self, r: RequestV) -> PayloadV {
        match self {
            Either::Left(s) => s.call_spec(r),
            Either::Right(s) => s.call_spec(r),
        }
    }

    open spec fn batch_spec(&self, b: Seq<RequestV>) -> Seq<PayloadV> {
        match self {
            Either::Left(s) => s.batch_spec(b),
            Either::Right(s) => s.batch_spec(b),
        }
    }

    open spec fn notification_spec(&self, n: NotificationV) -> bool {
        match self {
            Either::Left(s) => s.notification_spec(n),
            Either::Right(s) => s.notification_spec(n),
        }
    }

    fn call(&self, request: Request) -> (r: ResponsePayload) {
        match self {
            Either::Left(s) => s.call(request),
            Either::Right(s) => s.call(request),
        }
    }

    fn batch(&self, batch: Vec<Request>) -> (r: Vec<ResponsePayload>) {
        match self {
            Either::Left(s) => s.batch(batch),
            Either::Right(s) => s.batch(batch),
        }
    }

    fn notification(&self, n: Notification) -> (r: bool) {
        match self {
            Either::Left(s) => s.notification(n),
            Either::Right(s) => s.notification(n),
        }
    }
}

/// LAW: the combinator is transparent. Whichever variant an [`Either`]
/// holds, every operation's observable result equals the result of using
/// that variant directly.
pub proof fn lemma_either_transparent<A: RpcServiceT, B: RpcServiceT>(
    e: &Either<A, B>,
    r: RequestV,
    b: Seq<RequestV>,
    n: NotificationV,
)
    ensures
        match e {
            Either::Left(a) => e.call_spec(r) == a.call_spec(r) && e.batch_spec(b) == a.batch_spec(
                b,
            ) && e.notification_spec(n) == a.notification_spec(n),
            Either::Right(s) => e.call_spec(r) == s.call_spec(r) && e.batch_spec(b)
                == s.batch_spec(b) && e.notification_spec(n) == s.notification_spec(n),
        },
{
}

/// A pass-through layer that observes calls without changing them: the
/// observable behavior of the wrapped service is exactly the inner one.
/// (The log sink itself is transport-side work and lives outside the
/// verified core.)
#[derive(Debug, Clone, Copy, PartialEq, Eq, Structural)]
pub struct RpcLoggerLayer {
    /// The longest prefix of a message the logger would record.
    pub max_log_len: u32,
}

/// The service an [`RpcLoggerLayer`] produces.
pub struct RpcLogger<S> {
    /// The wrapped service.
    pub service: S,
    /// The longest prefix of a message the logger would record.
    pub max_log_len: u32,
}

impl<S: RpcServiceT> Layer<S> for RpcLoggerLayer {
    type Service = RpcLogger<S>;

    open spec fn layer_spec(&self, inner: S) -> RpcLogger<S> {
        RpcLogger { service: inner, max_log_len: self.max_log_len }
    }

    fn layer(&self, inner: S) -> (r: RpcLogger<S>) {
        RpcLogger { service: inner, max_log_len: self.max_log_len }
    }
}

impl<S: RpcServiceT> RpcServiceT for RpcLogger<S> {
    open spec fn call_spec(&self, r: RequestV) -> PayloadV {
        self.service.call_spec(r)
    }

    open spec fn batch_spec(&self, b: Seq<RequestV>) -> Seq<PayloadV> {
        self.service.batch_spec(b)
    }

    open spec fn notification_spec(&self, n: NotificationV) -> bool {
        self.service.notification_spec(n)
    }

    fn call(&self, request: Request) -> (r: ResponsePayload) {
        self.service.call(request)
    }

    fn batch(&self, batch: Vec<Request>) -> (r: Vec<ResponsePayload>) {
        self.service.batch(batch)
    }

    fn notification(&self, n: Notification) -> (r: bool) {
        self.service.notification(n)
    }
}

/// The identity layer: wrapping changes nothing.
#[derive(Debug, Clone, Copy, PartialEq, Eq, Structural)]
pub struct IdentityLayer;

impl<S: RpcServiceT> Layer<S> for IdentityLayer {
    type Service = S;

    open spec fn layer_spec(&self, inner: S) -> S {
        inner
    }

    fn layer(&self, inner: S) -> (r: S) {
        inner
    }
}

/// A terminal service that answers every call with one fixed payload:
/// the innermost stack element in tests and examples.
pub struct ConstService {
    /// The payload every call receives.
    pub reply: ResponsePayload,
}

impl RpcServiceT for ConstService {
    open spec fn call_spec(&self, r: RequestV) -> PayloadV {
        self.reply@
    }

    open spec fn batch_spec(&self, b: Seq<RequestV>) -> Seq<PayloadV> {
        Seq::new(b.len(), |i: int| self.reply@)
    }

    open spec fn notification_spec(&self, n: NotificationV) -> bool {
        true
    }

    fn call(&self, request: Request) -> (r: ResponsePayload) {
        self.reply.deep_clone()
    }

    #[verifier::loop_isolation(false)]
    fn batch(&self, batch: Vec<Request>) -> (r: Vec<ResponsePayload>) {
        let mut out: Vec<ResponsePayload> = Vec::new();
        let mut k: usize = 0;
        while k < batch.len()
            invariant
                k <= batch.len(),
                out@.len() == k as int,
                forall|i: int| 0 <= i < k as int ==> out@[i]@ == self.reply@,
            decreases batch.len() - k,
        {
            out.push(self.reply.deep_clone());
            k = k + 1;
        }
        proof {
            assert(pays_of(out@) =~= self.batch_spec(reqs_of(batch@)));
        }
        out
    }

    fn notification(&self, n: Notification) -> (r: bool) {
        true
    }
}

} // verus!
