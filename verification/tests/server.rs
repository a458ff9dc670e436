use respkv::Keyspace;
use respkv::eof_reply;
use respkv::run_pipeline;
use respkv::respond;
use respkv::Reply;
use respkv::encode_reply;
use respkv::get_bulk_string;
use respkv::get_null_string;
use respkv::get_simple_string;
use respkv::invalid_arg;
use respkv::wrong_number_args;

fn serve(ks: &mut Keyspace, input: &[u8], now: u64) -> Vec<u8> {
    let (out, consumed, close) = run_pipeline(ks, input, now);
    assert_eq!(consumed, input.len());
    assert!(!close);
    out
}

#[test]
fn ping_gets_pong() {
    let mut ks = Keyspace::new();
    let out = serve(&mut ks, b"*1\r\n$4\r\nPING\r\n", 0);
    assert_eq!(out, b"+PONG\r\n".to_vec());
}

#[test]
fn ping_is_case_insensitive() {
    let mut ks = Keyspace::new();
    let out = serve(&mut ks, b"*1\r\n$4\r\npInG\r\n", 0);
    assert_eq!(out, b"+PONG\r\n".to_vec());
}

#[test]
fn echo_returns_argument() {
    let mut ks = Keyspace::new();
    let out = serve(&mut ks, b"*2\r\n$4\r\nECHO\r\n$5\r\nhello\r\n", 0);
    assert_eq!(out, b"$5\r\nhello\r\n".to_vec());
}

#[test]
fn set_then_get_over_the_wire() {
    let mut ks = Keyspace::new();
    let out = serve(&mut ks, b"*3\r\n$3\r\nSET\r\n$3\r\nfoo\r\n$3\r\nbar\r\n", 0);
    assert_eq!(out, b"+OK\r\n".to_vec());
    let out = serve(&mut ks, b"*2\r\n$3\r\nGET\r\n$3\r\nfoo\r\n", 0);
    assert_eq!(out, b"$3\r\nbar\r\n".to_vec());
}

#[test]
fn get_of_missing_key_is_null() {
    let mut ks = Keyspace::new();
    let out = serve(&mut ks, b"*2\r\n$3\r\nGET\r\n$4\r\nnope\r\n", 0);
    assert_eq!(out, b"_\r\n".to_vec());
}

#[test]
fn set_px_expires_after_the_delay() {
    let mut ks = Keyspace::new();
    let out = serve(&mut ks, b"*5\r\n$3\r\nSET\r\n$3\r\nfoo\r\n$3\r\nbar\r\n$2\r\nPX\r\n$3\r\n100\r\n", 1_000);
    assert_eq!(out, b"+OK\r\n".to_vec());
    // Still visible just before the expiry instant.
    let out = serve(&mut ks, b"*2\r\n$3\r\nGET\r\n$3\r\nfoo\r\n", 1_099);
    assert_eq!(out, b"$3\r\nbar\r\n".to_vec());
    // 200 ms after the write the value is gone.
    let out = serve(&mut ks, b"*2\r\n$3\r\nGET\r\n$3\r\nfoo\r\n", 1_200);
    assert_eq!(out, b"_\r\n".to_vec());
}

#[test]
fn set_ex_counts_seconds() {
    let mut ks = Keyspace::new();
    serve(&mut ks, b"*5\r\n$3\r\nSET\r\n$1\r\nk\r\n$1\r\nv\r\n$2\r\nEX\r\n$1\r\n2\r\n", 0);
    let out = serve(&mut ks, b"*2\r\n$3\r\nGET\r\n$1\r\nk\r\n", 1_999);
    assert_eq!(out, b"$1\r\nv\r\n".to_vec());
    let out = serve(&mut ks, b"*2\r\n$3\r\nGET\r\n$1\r\nk\r\n", 2_000);
    assert_eq!(out, b"_\r\n".to_vec());
}

#[test]
fn set_nx_second_write_is_refused() {
    let mut ks = Keyspace::new();
    serve(&mut ks, b"*3\r\n$3\r\nSET\r\n$1\r\nk\r\n$2\r\nv1\r\n", 0);
    let out = serve(&mut ks, b"*4\r\n$3\r\nSET\r\n$1\r\nk\r\n$2\r\nv2\r\n$2\r\nNX\r\n", 0);
    assert_eq!(out, b"_\r\n".to_vec());
    let out = serve(&mut ks, b"*2\r\n$3\r\nGET\r\n$1\r\nk\r\n", 0);
    assert_eq!(out, b"$2\r\nv1\r\n".to_vec());
}

#[test]
fn set_get_option_reports_previous_value() {
    let mut ks = Keyspace::new();
    serve(&mut ks, b"*3\r\n$3\r\nSET\r\n$1\r\nk\r\n$2\r\nv1\r\n", 0);
    let out = serve(&mut ks, b"*4\r\n$3\r\nSET\r\n$1\r\nk\r\n$2\r\nv2\r\n$3\r\nGET\r\n", 0);
    assert_eq!(out, b"$2\r\nv1\r\n".to_vec());
    let out = serve(&mut ks, b"*2\r\n$3\r\nGET\r\n$1\r\nk\r\n", 0);
    assert_eq!(out, b"$2\r\nv2\r\n".to_vec());
}

#[test]
fn set_get_option_on_fresh_key_is_null() {
    let mut ks = Keyspace::new();
    let out = serve(&mut ks, b"*4\r\n$3\r\nSET\r\n$1\r\nk\r\n$1\r\nv\r\n$3\r\nGET\r\n", 0);
    assert_eq!(out, b"_\r\n".to_vec());
}

#[test]
fn set_nx_and_xx_together_never_applies() {
    let mut ks = Keyspace::new();
    let out = serve(&mut ks, b"*5\r\n$3\r\nSET\r\n$1\r\nk\r\n$1\r\nv\r\n$2\r\nNX\r\n$2\r\nXX\r\n", 0);
    assert_eq!(out, b"_\r\n".to_vec());
    let out = serve(&mut ks, b"*2\r\n$3\r\nGET\r\n$1\r\nk\r\n", 0);
    assert_eq!(out, b"_\r\n".to_vec());
}

#[test]
fn set_with_bad_px_value_is_an_error() {
    let mut ks = Keyspace::new();
    let out = serve(&mut ks, b"*5\r\n$3\r\nSET\r\n$1\r\nk\r\n$1\r\nv\r\n$2\r\nPX\r\n$3\r\nabc\r\n", 0);
    assert_eq!(out, b"-ERR invalid argument for 'set' command\r\n".to_vec());
    let out = serve(&mut ks, b"*4\r\n$3\r\nSET\r\n$1\r\nk\r\n$1\r\nv\r\n$2\r\nPX\r\n", 0);
    assert_eq!(out, b"-ERR invalid argument for 'set' command\r\n".to_vec());
}

#[test]
fn wrong_arity_is_reported_per_command() {
    let mut ks = Keyspace::new();
    let out = serve(&mut ks, b"*1\r\n$4\r\nECHO\r\n", 0);
    assert_eq!(out, b"-ERR wrong number of arguments for 'echo' command\r\n".to_vec());
    let out = serve(&mut ks, b"*2\r\n$3\r\nSET\r\n$1\r\nk\r\n", 0);
    assert_eq!(out, b"-ERR wrong number of arguments for 'set' command\r\n".to_vec());
    let out = serve(&mut ks, b"*1\r\n$3\r\nGET\r\n", 0);
    assert_eq!(out, b"-ERR wrong number of arguments for 'get' command\r\n".to_vec());
}

#[test]
fn non_bulk_argument_is_invalid() {
    let mut ks = Keyspace::new();
    let out = serve(&mut ks, b"*2\r\n$4\r\nECHO\r\n:5\r\n", 0);
    assert_eq!(out, b"-ERR invalid argument for 'echo' command\r\n".to_vec());
    let out = serve(&mut ks, b"*2\r\n$3\r\nGET\r\n:5\r\n", 0);
    assert_eq!(out, b"-ERR invalid argument for 'get' command\r\n".to_vec());
    let out = serve(&mut ks, b"*3\r\n$3\r\nSET\r\n:1\r\n$1\r\nv\r\n", 0);
    assert_eq!(out, b"-ERR invalid argument for 'set' command\r\n".to_vec());
}

#[test]
fn later_expiry_option_overrides_earlier() {
    let mut ks = Keyspace::new();
    let out = serve(
        &mut ks,
        b"*7\r\n$3\r\nSET\r\n$1\r\nk\r\n$1\r\nv\r\n$2\r\nPX\r\n$3\r\n100\r\n$2\r\nPX\r\n$2\r\n50\r\n",
        0,
    );
    assert_eq!(out, b"+OK\r\n".to_vec());
    let out = serve(&mut ks, b"*2\r\n$3\r\nGET\r\n$1\r\nk\r\n", 40);
    assert_eq!(out, b"$1\r\nv\r\n".to_vec());
    let out = serve(&mut ks, b"*2\r\n$3\r\nGET\r\n$1\r\nk\r\n", 60);
    assert_eq!(out, b"_\r\n".to_vec());
}

#[test]
fn empty_array_is_an_error() {
    let mut ks = Keyspace::new();
    let out = serve(&mut ks, b"*0\r\n", 0);
    assert_eq!(out, b"-ERR empty command\r\n".to_vec());
}

#[test]
fn unknown_command_keeps_connection_open() {
    let mut ks = Keyspace::new();
    let out = serve(&mut ks, b"*1\r\n$4\r\nBLAH\r\n", 0);
    assert_eq!(out, b"-ERR unsupported command\r\n".to_vec());
    // A following PING on the same connection is still served.
    let out = serve(&mut ks, b"*1\r\n$4\r\nPING\r\n", 0);
    assert_eq!(out, b"+PONG\r\n".to_vec());
}

#[test]
fn truncated_request_waits_then_fails_at_eof() {
    let mut ks = Keyspace::new();
    let input = b"*2\r\n$3\r\nGET\r\n";
    // While the stream is open nothing is consumed: the frame may complete.
    let (out, consumed, close) = run_pipeline(&mut ks, input, 0);
    assert_eq!(out, Vec::<u8>::new());
    assert_eq!(consumed, 0);
    assert!(!close);
    // The peer hangs up mid-frame: that is a decoder error and the
    // connection closes after one error reply.
    let reply = eof_reply(input).expect("an error reply is owed at EOF");
    assert_eq!(reply, b"-ERR protocol error: incomplete frame\r\n".to_vec());
    assert_eq!(eof_reply(b""), None);
}

#[test]
fn hard_decode_error_answers_and_closes() {
    let mut ks = Keyspace::new();
    let (out, consumed, close) = run_pipeline(&mut ks, b"?bogus\r\n", 0);
    assert_eq!(out, b"-ERR protocol error: unknown type byte\r\n".to_vec());
    assert_eq!(consumed, 0);
    assert!(close);
}

#[test]
fn pipelined_requests_answered_in_order() {
    let mut ks = Keyspace::new();
    let mut input = Vec::new();
    input.extend_from_slice(b"*3\r\n$3\r\nSET\r\n$1\r\nk\r\n$2\r\nv1\r\n");
    input.extend_from_slice(b"*2\r\n$3\r\nGET\r\n$1\r\nk\r\n");
    input.extend_from_slice(b"*1\r\n$4\r\nPING\r\n");
    let out = serve(&mut ks, &input, 0);
    assert_eq!(out, b"+OK\r\n$2\r\nv1\r\n+PONG\r\n".to_vec());
}

#[test]
fn pipeline_stops_at_trailing_partial_frame() {
    let mut ks = Keyspace::new();
    let mut input = Vec::new();
    input.extend_from_slice(b"*1\r\n$4\r\nPING\r\n");
    input.extend_from_slice(b"*2\r\n$4\r\nECHO\r\n$3\r\nab");
    let (out, consumed, close) = run_pipeline(&mut ks, &input, 0);
    assert_eq!(out, b"+PONG\r\n".to_vec());
    assert_eq!(consumed, 14);
    assert!(!close);
    // Once the rest arrives, decoding resumes from the retained bytes.
    let mut rest = input[consumed..].to_vec();
    rest.extend_from_slice(b"c\r\n");
    let out = serve(&mut ks, &rest, 0);
    assert_eq!(out, b"$3\r\nabc\r\n".to_vec());
}

#[test]
fn respond_uses_the_wall_clock() {
    let mut ks = Keyspace::new();
    let (out, consumed, close) = respond(&mut ks, b"*1\r\n$4\r\nPING\r\n");
    assert_eq!(out, b"+PONG\r\n".to_vec());
    assert_eq!(consumed, 14);
    assert!(!close);
}

#[test]
fn reply_helpers_produce_wire_forms() {
    assert_eq!(get_simple_string("OK"), b"+OK\r\n".to_vec());
    assert_eq!(get_bulk_string(&b"hello".to_vec()), b"$5\r\nhello\r\n".to_vec());
    assert_eq!(get_null_string(), b"_\r\n".to_vec());
    assert_eq!(
        encode_reply(&invalid_arg("set")),
        b"-ERR invalid argument for 'set' command\r\n".to_vec()
    );
    assert_eq!(
        encode_reply(&wrong_number_args("get")),
        b"-ERR wrong number of arguments for 'get' command\r\n".to_vec()
    );
    assert_eq!(
        encode_reply(&Reply::BulkString { value: b"x\r\ny".to_vec() }),
        b"$4\r\nx\r\ny\r\n".to_vec()
    );
}

#[test]
fn binary_keys_and_values_survive_the_trip() {
    let mut ks = Keyspace::new();
    let out = serve(&mut ks, b"*3\r\n$3\r\nSET\r\n$4\r\nk\r\n0\r\n$5\r\nv\x00\xffz\n\r\n", 0);
    assert_eq!(out, b"+OK\r\n".to_vec());
    let out = serve(&mut ks, b"*2\r\n$3\r\nGET\r\n$4\r\nk\r\n0\r\n", 0);
    assert_eq!(out, b"$5\r\nv\x00\xffz\n\r\n".to_vec());
}
