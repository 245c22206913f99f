use sailfish::committee::{Authority, Committee, PrimaryAddresses};
use sailfish::ident::{Address, Digest, PublicKey};
use sailfish::messages::{Certificate, Header, Proposal};
use sailfish::primary::helper::{HeaderWalk, Helper, HelperRequest, HelperTask, WalkBound};
use sailfish::primary::primary::{
    BatchReport, Encoded, ListenAddresses, Primary, PrimaryMessage, Route, WorkerPrimaryMessage,
};
use sailfish::table::Table;

fn digest(n: u8) -> Digest {
    Digest([n; 32])
}

fn name(n: u8) -> PublicKey {
    PublicKey([n; 32])
}

fn committee() -> Committee {
    let mut authorities: Table<PublicKey, Authority> = Table::new();
    authorities.insert(
        name(1),
        Authority {
            primary: PrimaryAddresses {
                primary_to_primary: Address::V4 { ip: 0x0a00_0001, port: 3_000 },
                worker_to_primary: Address::V6 { ip6: 1, port: 3_001, flowinfo: 7, scope_id: 9 },
            },
            workers: Table::new(),
        },
    );
    Committee { authorities }
}

fn helper() -> Helper {
    Helper { committee: committee(), range_window: 3 }
}

fn certificate(header: u8, height: u64) -> Certificate {
    Certificate {
        author: name(1),
        header_digest: digest(header),
        height,
        digest: digest(header + 100),
        votes: vec![],
    }
}

/// The header of height `n`, whose parent is that of height `n - 1`.
fn header(n: u8) -> Header {
    Header {
        id: digest(n),
        author: name(1),
        height: n as u64,
        payload: vec![],
        parent_cert: certificate(n - 1, n as u64 - 1),
        consensus_messages: vec![],
        num_active_instances: 0,
        special: false,
    }
}

fn walk_to_the_end(mut w: HeaderWalk, highest: u8) -> (Vec<u64>, Option<PrimaryMessage>, usize) {
    let mut reads = 0;
    while let Some(d) = w.next_read() {
        reads += 1;
        let n = d.0[0];
        w.on_read(if n > 0 && n <= highest { Some(header(n)) } else { None });
    }
    let gathered = w.headers.iter().map(|h| h.height).collect();
    (gathered, w.answer(), reads)
}

#[test]
fn a_suffix_walk_stops_at_the_height() {
    let (gathered, message, reads) =
        walk_to_the_end(HeaderWalk::new(digest(8), WalkBound::Above(5)), 8);
    assert_eq!(gathered, vec![8, 7, 6]);
    assert_eq!(reads, 4);
    match message {
        Some(PrimaryMessage::ProposalHeaders(headers)) => {
            assert_eq!(headers.iter().map(|h| h.height).collect::<Vec<_>>(), vec![6, 7, 8])
        }
        _ => panic!("not a suffix"),
    }
}

#[test]
fn a_suffix_walk_stops_at_what_is_missing() {
    let (gathered, message, reads) =
        walk_to_the_end(HeaderWalk::new(digest(2), WalkBound::Above(0)), 8);
    assert_eq!((gathered, reads), (vec![2, 1], 3));
    assert!(matches!(message, Some(PrimaryMessage::ProposalHeaders(_))));
    let (gathered, message, reads) =
        walk_to_the_end(HeaderWalk::new(digest(9), WalkBound::Above(0)), 8);
    assert_eq!((gathered, reads), (vec![], 1));
    assert!(message.is_none());
}

#[test]
fn a_range_walk_is_bounded_by_height_and_window() {
    let (gathered, message, reads) =
        walk_to_the_end(HeaderWalk::new(digest(8), WalkBound::From(7, 5)), 8);
    assert_eq!((gathered, reads), (vec![8, 7], 3));
    match message {
        Some(PrimaryMessage::HeaderRange(headers)) => {
            assert_eq!(headers.iter().map(|h| h.height).collect::<Vec<_>>(), vec![7, 8])
        }
        _ => panic!("not a range"),
    }
    let (gathered, _, reads) =
        walk_to_the_end(HeaderWalk::new(digest(8), WalkBound::From(0, 3)), 8);
    assert_eq!((gathered, reads), (vec![8, 7, 6], 3));
    let (gathered, message, reads) =
        walk_to_the_end(HeaderWalk::new(digest(8), WalkBound::From(0, 0)), 8);
    assert_eq!((gathered, reads), (vec![], 0));
    assert!(message.is_none());
}

#[test]
fn a_failed_read_leaves_nothing_to_answer_with() {
    for bound in [WalkBound::Above(0), WalkBound::From(0, 5)] {
        let mut w = HeaderWalk::new(digest(8), bound);
        w.on_read(Some(header(8)));
        w.on_read(Some(header(7)));
        assert_eq!(w.next_read(), Some(digest(6)));
        w.on_failed();
        assert_eq!(w.next_read(), None);
        assert!(w.answer().is_none());
    }
}

#[test]
fn requests_of_members_are_accepted() {
    let h = helper();
    let at = Address::V4 { ip: 0x0a00_0001, port: 3_000 };
    match h.accept(HelperRequest::Certificates(vec![digest(1)], name(1))) {
        Some(HelperTask::Certificates(digests, a)) => assert_eq!((digests, a), (vec![digest(1)], at)),
        _ => panic!("not accepted"),
    }
    match h.accept(HelperRequest::Headers(vec![digest(2)], name(1))) {
        Some(HelperTask::Headers(digests, a)) => assert_eq!((digests, a), (vec![digest(2)], at)),
        _ => panic!("not accepted"),
    }
    let p = Proposal { header_digest: digest(8), height: 8, certificate: certificate(8, 8) };
    match h.accept(HelperRequest::ProposalHeaders(p, 4, name(1))) {
        Some(HelperTask::Walk(w, a)) => {
            assert_eq!((w.bound, w.next_read(), a), (WalkBound::Above(4), Some(digest(8)), at))
        }
        _ => panic!("not accepted"),
    }
    match h.accept(HelperRequest::HeaderRange(digest(7), 2, name(1))) {
        Some(HelperTask::Walk(w, a)) => {
            assert_eq!((w.bound, w.next_read(), a), (WalkBound::From(2, 3), Some(digest(7)), at))
        }
        _ => panic!("not accepted"),
    }
}

#[test]
fn requests_of_strangers_are_not() {
    assert!(helper().accept(HelperRequest::Headers(vec![digest(2)], name(2))).is_none());
    assert!(helper().accept(HelperRequest::HeaderRange(digest(7), 2, name(3))).is_none());
}

#[test]
fn single_replies() {
    match Helper::certificate_reply(Some(certificate(4, 4))) {
        Some(PrimaryMessage::Certificate(c)) => assert_eq!(c.header_digest, digest(4)),
        _ => panic!("no certificate"),
    }
    assert!(Helper::certificate_reply(None).is_none());
    match Helper::header_reply(Some(header(4))) {
        Some(PrimaryMessage::Header(h, answers)) => assert_eq!((h.height, answers), (4, true)),
        _ => panic!("no header"),
    }
    assert!(Helper::header_reply(None).is_none());
}

#[test]
fn requests_go_to_the_helper() {
    match Primary::dispatch(PrimaryMessage::CertificatesRequest(vec![digest(1)], name(2))) {
        Route::Helper(HelperRequest::Certificates(d, n)) => assert_eq!((d, n), (vec![digest(1)], name(2))),
        _ => panic!("not for the helper"),
    }
    match Primary::dispatch(PrimaryMessage::HeadersRequest(vec![digest(1)], name(2))) {
        Route::Helper(HelperRequest::Headers(d, n)) => assert_eq!((d, n), (vec![digest(1)], name(2))),
        _ => panic!("not for the helper"),
    }
    let p = Proposal { header_digest: digest(8), height: 8, certificate: certificate(8, 8) };
    match Primary::dispatch(PrimaryMessage::ProposalHeadersRequest(p, 3, name(2))) {
        Route::Helper(HelperRequest::ProposalHeaders(p, h, n)) => {
            assert_eq!((p.header_digest, h, n), (digest(8), 3, name(2)))
        }
        _ => panic!("not for the helper"),
    }
    match Primary::dispatch(PrimaryMessage::HeaderRangeRequest(digest(8), 3, name(2))) {
        Route::Helper(HelperRequest::HeaderRange(d, h, n)) => assert_eq!((d, h, n), (digest(8), 3, name(2))),
        _ => panic!("not for the helper"),
    }
}

#[test]
fn everything_else_goes_to_the_core() {
    match Primary::dispatch(PrimaryMessage::Vote(Encoded { bytes: vec![1, 2] })) {
        Route::Core(PrimaryMessage::Vote(e)) => assert_eq!(e.bytes, vec![1, 2]),
        _ => panic!("not for the core"),
    }
    assert!(matches!(
        Primary::dispatch(PrimaryMessage::Header(header(3), false)),
        Route::Core(PrimaryMessage::Header(_, false))
    ));
    assert!(matches!(
        Primary::dispatch(PrimaryMessage::ProposalHeaders(vec![])),
        Route::Core(PrimaryMessage::ProposalHeaders(_))
    ));
}

#[test]
fn workers_report_batches() {
    assert_eq!(
        Primary::on_worker_message(WorkerPrimaryMessage::OurBatch(digest(1), 2, 77, 500, 9)),
        BatchReport {
            own: true,
            digest: digest(1),
            worker_id: 2,
            batch_size_bytes: 500,
            tx_count: Some(9),
            first_tx_submit_ms: Some(77),
        }
    );
    assert_eq!(
        Primary::on_worker_message(WorkerPrimaryMessage::OurBatch(digest(1), 2, 0, 500, 9))
            .first_tx_submit_ms,
        None
    );
    assert_eq!(
        Primary::on_worker_message(WorkerPrimaryMessage::OthersBatch(digest(1), 2, 500)),
        BatchReport {
            own: false,
            digest: digest(1),
            worker_id: 2,
            batch_size_bytes: 500,
            tx_count: None,
            first_tx_submit_ms: None,
        }
    );
}

#[test]
fn a_primary_listens_on_all_interfaces() {
    assert_eq!(
        Primary::listen_addresses(&committee(), &name(1)),
        Some(ListenAddresses {
            primaries: Address::V4 { ip: 0, port: 3_000 },
            workers: Address::V4 { ip: 0, port: 3_001 },
        })
    );
    assert_eq!(Primary::listen_addresses(&committee(), &name(5)), None);
}
