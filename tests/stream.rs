use kube_stream::decoder::{MultiResponseDecoder, Outcome};
use kube_stream::stream::{body, BodyStream, Error};

const POD_EVENT: &str = r#"{
    "type": "ADDED",
    "object": {
        "kind": "Pod",
        "apiVersion": "v1",
        "metadata": {
            "uid": "uid0"
        }
    }
}"#;

fn pod_event(uid: &str) -> String {
    format!(
        r#"{{"type":"MODIFIED","object":{{"kind":"Pod","apiVersion":"v1","metadata":{{"uid":"{}"}}}}}}"#,
        uid
    )
}

fn ok_chunks(chunks: &[&str]) -> Vec<Result<Vec<u8>, std::io::Error>> {
    chunks.iter().map(|c| Ok(c.as_bytes().to_vec())).collect()
}

fn uid_of(item: &Result<kube_stream::watch::Record, Error<std::io::Error>>) -> String {
    match item {
        Ok(record) => match &record.event().event {
            k8s_openapi::WatchResponse::Ok(k8s_openapi::apimachinery::pkg::apis::meta::v1::WatchEvent::Modified(pod))
            | k8s_openapi::WatchResponse::Ok(k8s_openapi::apimachinery::pkg::apis::meta::v1::WatchEvent::Added(pod)) => {
                pod.metadata.uid.clone().unwrap()
            }
            _ => panic!("unexpected watch event"),
        },
        Err(_) => panic!("expected a record"),
    }
}

#[test]
fn test_body() {
    let out = body(ok_chunks(&[POD_EVENT]));
    assert_eq!(out.len(), 1);
    assert!(out[0].is_ok());
    assert_eq!(uid_of(&out[0]), "uid0");
}

#[test]
fn test_body_passes_reading_error() {
    let err = std::io::Error::new(std::io::ErrorKind::Other, "test error");
    let chunks: Vec<Result<Vec<u8>, std::io::Error>> = vec![Err(err)];
    let out = body(chunks);
    assert_eq!(out.len(), 1);
    match &out[0] {
        Err(Error::Reading { source }) => assert_eq!(source.to_string(), "test error"),
        _ => panic!("expected a reading error"),
    }
}

#[test]
fn test_body_passes_parsing_error() {
    let out = body(ok_chunks(&["qwerty"]));
    assert_eq!(out.len(), 1);
    assert!(matches!(
        &out[0],
        Err(Error::Parsing { source }) if matches!(source.error(), k8s_openapi::ResponseError::Json(_))
    ));
}

#[test]
fn test_body_uses_finish() {
    let out = body(ok_chunks(&["{"]));
    assert_eq!(out.len(), 1);
    assert!(matches!(
        &out[0],
        Err(Error::UnparsedDataUponCompletion { data }) if *data == vec![b'{']
    ));
}

#[test]
fn test_sudden_null() {
    let out = body(ok_chunks(&["null"]));
    assert!(out.is_empty());
}

#[test]
fn sudden_null_skips_the_residue_check() {
    let out = body(ok_chunks(&["null", "{"]));
    assert!(out.is_empty());
}

#[test]
fn records_keep_their_order_across_chunks() {
    let a = pod_event("a");
    let b = pod_event("b");
    let c = pod_event("c");
    let joined = format!("{}{}{}", a, b, c);
    let (first, second) = joined.split_at(a.len() + 5);
    let out = body(ok_chunks(&[first, second]));
    assert_eq!(out.len(), 3);
    assert_eq!(uid_of(&out[0]), "a");
    assert_eq!(uid_of(&out[1]), "b");
    assert_eq!(uid_of(&out[2]), "c");
}

#[test]
fn split_document_decodes_as_whole() {
    let doc = pod_event("split");
    for cut in [1, 10, doc.len() / 2, doc.len() - 1] {
        let (x, y) = doc.split_at(cut);
        let out = body(ok_chunks(&[x, y]));
        assert_eq!(out.len(), 1);
        assert_eq!(uid_of(&out[0]), "split");
    }
}

#[test]
fn several_documents_in_one_chunk() {
    let chunk = format!("{}\n{}", pod_event("x"), pod_event("y"));
    let mut decoder = MultiResponseDecoder::new();
    let outcomes = decoder.process_next_chunk(chunk.as_bytes());
    assert_eq!(outcomes.len(), 2);
    assert!(outcomes.iter().all(|o| matches!(o, Outcome::Record(_))));
    assert!(decoder.finish().is_ok());
}

#[test]
fn read_error_after_records() {
    let mut chunks = ok_chunks(&[&pod_event("r1"), &pod_event("r2")]);
    chunks.push(Err(std::io::Error::new(std::io::ErrorKind::Other, "gone")));
    chunks.push(Ok(pod_event("r3").into_bytes()));
    let out = body(chunks);
    assert_eq!(out.len(), 3);
    assert_eq!(uid_of(&out[0]), "r1");
    assert_eq!(uid_of(&out[1]), "r2");
    assert!(matches!(&out[2], Err(Error::Reading { .. })));
}

#[test]
fn read_error_keeps_partial_document_unreported() {
    let doc = pod_event("p");
    let (x, _) = doc.split_at(7);
    let mut chunks = ok_chunks(&[x]);
    chunks.push(Err(std::io::Error::new(std::io::ErrorKind::Other, "cut")));
    let out = body(chunks);
    assert_eq!(out.len(), 1);
    assert!(matches!(&out[0], Err(Error::Reading { .. })));
}

#[test]
fn parse_error_after_record_is_last() {
    let chunk = format!("{} qwerty", pod_event("good"));
    let mut chunks = ok_chunks(&[&chunk]);
    chunks.push(Ok(pod_event("late").into_bytes()));
    let out = body(chunks);
    assert_eq!(out.len(), 2);
    assert_eq!(uid_of(&out[0]), "good");
    assert!(matches!(&out[1], Err(Error::Parsing { .. })));
}

#[test]
fn truncated_document_residue_is_exact() {
    let doc = pod_event("t");
    let (x, _) = doc.split_at(12);
    let out = body(ok_chunks(&[&pod_event("first"), x]));
    assert_eq!(out.len(), 2);
    assert_eq!(uid_of(&out[0]), "first");
    assert!(matches!(
        &out[1],
        Err(Error::UnparsedDataUponCompletion { data }) if data.as_slice() == x.as_bytes()
    ));
}

#[test]
fn empty_body_yields_nothing() {
    let out = body(Vec::<Result<Vec<u8>, std::io::Error>>::new());
    assert!(out.is_empty());
    let out = body(ok_chunks(&["", ""]));
    assert!(out.is_empty());
}

#[test]
fn exhausted_stream_stays_exhausted() {
    let mut stream = BodyStream::new();
    let out = stream.on_chunk::<std::io::Error>(b"qwerty");
    assert_eq!(out.len(), 1);
    assert!(stream.is_terminated());
    assert!(stream.on_chunk::<std::io::Error>(pod_event("z").as_bytes()).is_empty());
    assert!(stream
        .on_read_error(std::io::Error::new(std::io::ErrorKind::Other, "x"))
        .is_none());
    assert!(stream.on_end::<std::io::Error>().is_none());
    assert!(stream.on_end::<std::io::Error>().is_none());
}

#[test]
fn clean_end_then_nothing() {
    let mut stream = BodyStream::new();
    assert_eq!(stream.on_chunk::<std::io::Error>(pod_event("e").as_bytes()).len(), 1);
    assert!(stream.on_end::<std::io::Error>().is_none());
    assert!(stream.is_terminated());
    assert!(stream.on_end::<std::io::Error>().is_none());
}

#[test]
fn decoder_finish_returns_buffered_bytes() {
    let mut decoder = MultiResponseDecoder::new();
    assert!(decoder.process_next_chunk(b"{\"type\"").is_empty());
    assert_eq!(decoder.finish(), Err(b"{\"type\"".to_vec()));
}

#[test]
fn decoder_drops_buffer_on_malformed_input() {
    let mut decoder = MultiResponseDecoder::new();
    let outcomes = decoder.process_next_chunk(b"qwerty {");
    assert_eq!(outcomes.len(), 1);
    assert!(matches!(&outcomes[0], Outcome::Failed(f) if !f.is_data()));
    assert!(decoder.finish().is_ok());
}

#[test]
fn decoder_flags_null_as_data_error() {
    let mut decoder = MultiResponseDecoder::new();
    let outcomes = decoder.process_next_chunk(b"null");
    assert_eq!(outcomes.len(), 1);
    assert!(matches!(&outcomes[0], Outcome::Failed(f) if f.is_data()));
}
