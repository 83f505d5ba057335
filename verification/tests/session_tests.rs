use std::time::Duration;

use codecs::client_outcome;
use codecs::ClientOutcome;
use codecs::DecodeError;
use codecs::EncodeError;
use codecs::Message;
use codecs::MyBytesCodec;
use codecs::Server;
use codecs::ServerAction;
use codecs::SessionError;
use tokio::io::AsyncRead;
use tokio::io::AsyncReadExt;
use tokio::io::AsyncWrite;
use tokio::io::AsyncWriteExt;
use tokio::net::TcpStream;

/// Serves one connection until `replies` acknowledgments have been sent:
/// each read is decoded, the verified decision function picks the action,
/// and only a decoded message earns a reply. The transport is any duplex
/// byte stream; these tests use an in-memory one.
async fn serve_connection<S: AsyncRead + AsyncWrite + Unpin>(mut socket: S, replies: usize) {
    let mut codec = MyBytesCodec;
    let mut sent = 0;
    let mut chunk = vec![0u8; 4096];
    while sent < replies {
        let n = socket.read(&mut chunk).await.unwrap();
        if n == 0 {
            break;
        }
        let mut buf = chunk[..n].to_vec();
        let frame = match codec.decode(&mut buf) {
            Ok(Some(m)) => Some(Ok(m)),
            Ok(None) => None,
            Err(e) => Some(Err(e)),
        };
        match Server::handle_frame(frame) {
            ServerAction::Reply(reply) => {
                let mut out: Vec<u8> = Vec::new();
                codec.encode(reply, &mut out).unwrap();
                socket.write_all(&out).await.unwrap();
                sent += 1;
            }
            ServerAction::ReportError(_) => {
                // Malformed bytes are reported, not fatal: keep serving.
            }
            ServerAction::ReportNoData => {}
        }
    }
}

/// One client exchange: send a message built from `text`, then attempt
/// exactly one decode of the reply.
async fn exchange<S: AsyncRead + AsyncWrite + Unpin>(stream: &mut S, text: &str) -> ClientOutcome {
    let mut codec = MyBytesCodec;
    let mut out: Vec<u8> = Vec::new();
    codec.encode(Message::new(text.to_string()), &mut out).unwrap();
    stream.write_all(&out).await.unwrap();
    let mut chunk = vec![0u8; 4096];
    let n = tokio::time::timeout(Duration::from_secs(10), stream.read(&mut chunk))
        .await
        .unwrap()
        .unwrap();
    let mut buf = chunk[..n].to_vec();
    let frame = match codec.decode(&mut buf) {
        Ok(Some(m)) => Some(Ok(m)),
        Ok(None) => None,
        Err(e) => Some(Err(e)),
    };
    client_outcome(frame)
}

#[test]
fn server_acknowledges_client_message() {
    let rt = tokio::runtime::Runtime::new().unwrap();
    rt.block_on(async {
        let (mut client, server_end) = tokio::io::duplex(4096);
        let server = tokio::spawn(serve_connection(server_end, 1));
        let outcome = exchange(&mut client, "Hello my friend").await;
        match outcome {
            ClientOutcome::Reply(m) => assert_eq!(m.text, "ok"),
            other => panic!("expected a reply, got {:?}", other),
        }
        server.await.unwrap();
    });
}

#[test]
fn malformed_peer_is_reported_and_serving_continues() {
    let rt = tokio::runtime::Runtime::new().unwrap();
    rt.block_on(async {
        let (mut client, server_end) = tokio::io::duplex(4096);
        let server = tokio::spawn(serve_connection(server_end, 1));
        // Bytes that are not valid serialized Message data: the server
        // reports the decode failure and keeps waiting for input.
        client.write_all(b"these bytes are not json").await.unwrap();
        tokio::time::sleep(Duration::from_millis(300)).await;
        // A subsequent well-formed message is still served.
        let outcome = exchange(&mut client, "after the garbage").await;
        match outcome {
            ClientOutcome::Reply(m) => assert_eq!(m.text, "ok"),
            other => panic!("expected a reply, got {:?}", other),
        }
        server.await.unwrap();
    });
}

#[test]
fn malformed_reply_maps_to_decode_failure() {
    let frame = Some(Err(DecodeError::InvalidData));
    let outcome = client_outcome(frame);
    assert_eq!(outcome, ClientOutcome::DecodeFailed(DecodeError::InvalidData));
    assert_ne!(outcome, ClientOutcome::NoReply);
}

#[test]
fn no_listener_yields_connection_error() {
    let rt = tokio::runtime::Runtime::new().unwrap();
    rt.block_on(async {
        // The discard port has no listener (and this environment offers
        // no route at all), so the connect attempt must fail before any
        // decode or encode is attempted.
        let result = tokio::time::timeout(
            Duration::from_secs(10),
            TcpStream::connect("127.0.0.1:9"),
        )
        .await
        .unwrap();
        assert!(result.is_err());
        // The failure surfaces as a connection error, distinct from the
        // decode and encode errors of the codec.
        let reported = SessionError::Connection;
        assert_ne!(reported, SessionError::Decode(DecodeError::InvalidData));
        assert_ne!(reported, SessionError::Encode(EncodeError::SerializationFailed));
        assert_ne!(reported, SessionError::NoData);
    });
}

#[test]
fn server_decisions_follow_the_frame() {
    match Server::handle_frame(Some(Ok(Message::new("hi".to_string())))) {
        ServerAction::Reply(m) => assert_eq!(m.text, "ok"),
        other => panic!("expected a reply, got {:?}", other),
    }
    assert_eq!(
        Server::handle_frame(Some(Err(DecodeError::InvalidData))),
        ServerAction::ReportError(DecodeError::InvalidData)
    );
    assert_eq!(Server::handle_frame(None), ServerAction::ReportNoData);
}
