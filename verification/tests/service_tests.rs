use jsonrpc_client::builder::WasmClientBuilder;
use jsonrpc_client::client::IdKind;
use jsonrpc_client::json::Json;
use jsonrpc_client::response::{Id, ResponsePayload};
use jsonrpc_client::service::{
    ConstService, Either, IdentityLayer, Layer, Notification, Request, RpcLoggerLayer,
    RpcServiceT,
};

fn request(n: u64) -> Request {
    Request { method: b"say_hello".to_vec(), params: Json::Null, id: Id::Number(n) }
}

fn reply() -> ResponsePayload {
    ResponsePayload::success(Json::Str(b"hello".to_vec()))
}

#[test]
fn either_behaves_as_the_chosen_variant() {
    let terminal = ConstService { reply: reply() };
    let direct = terminal.call(request(1));

    let left: Either<RpcLoggerLayer, IdentityLayer> =
        Either::Left(RpcLoggerLayer { max_log_len: 64 });
    let left_service = left.layer(ConstService { reply: reply() });
    assert_eq!(left_service.call(request(1)), direct);

    let right: Either<RpcLoggerLayer, IdentityLayer> = Either::Right(IdentityLayer);
    let right_service = right.layer(ConstService { reply: reply() });
    assert_eq!(right_service.call(request(1)), direct);
}

#[test]
fn either_batch_and_notification_match_direct_use() {
    let direct = ConstService { reply: reply() };
    let batch = vec![request(1), request(2), request(3)];
    let expected = direct.batch(vec![request(1), request(2), request(3)]);

    let chosen: Either<RpcLoggerLayer, IdentityLayer> = Either::Right(IdentityLayer);
    let service = chosen.layer(ConstService { reply: reply() });
    assert_eq!(service.batch(batch), expected);
    assert_eq!(expected.len(), 3);

    let n = Notification { method: b"ping".to_vec(), params: Json::Null };
    let n2 = Notification { method: b"ping".to_vec(), params: Json::Null };
    assert_eq!(service.notification(n), direct.notification(n2));
}

#[test]
fn logger_layer_is_observably_transparent() {
    let wrapped = RpcLoggerLayer { max_log_len: 16 }.layer(ConstService { reply: reply() });
    assert_eq!(wrapped.call(request(9)), reply());
}

#[test]
fn builder_defaults_match_the_documented_configuration() {
    let b = WasmClientBuilder::new();
    assert_eq!(b.id_kind, IdKind::Number);
    assert_eq!(b.max_concurrent_requests, 256);
    assert_eq!(b.max_buffer_capacity_per_subscription, 1024);
    assert_eq!(b.request_timeout_ms, 60_000);
    assert_eq!(b.service_builder, RpcLoggerLayer { max_log_len: 1024 });
}

#[test]
fn builder_setters_replace_exactly_one_option() {
    let b = WasmClientBuilder::new()
        .request_timeout(5_000)
        .max_concurrent_requests(4)
        .max_buffer_capacity_per_subscription(2)
        .id_format(IdKind::Str);
    assert_eq!(b.request_timeout_ms, 5_000);
    assert_eq!(b.max_concurrent_requests, 4);
    assert_eq!(b.max_buffer_capacity_per_subscription, 2);
    assert_eq!(b.id_kind, IdKind::Str);

    let with_stack = b.set_rpc_middleware(IdentityLayer);
    assert_eq!(with_stack.max_concurrent_requests, 4);
    assert_eq!(with_stack.service_builder, IdentityLayer);
}

#[test]
fn builder_builds_a_core_under_its_limits() {
    let b = WasmClientBuilder::new().max_concurrent_requests(1).request_timeout(10);
    let mut core = b.build_core();
    assert!(core.try_begin_call(0).is_some());
    assert!(core.try_begin_call(0).is_none());
}
