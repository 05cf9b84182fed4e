use iroh::cf::{Drive, GraphV0, MetadataV0, MountV0, Versioned};
use iroh::cli::{dec_string, Args};
use iroh::rpc::{GetSizeRequest, HasResponse, One, StoreRequest, StoreResponse, VersionResponse};
use iroh::unixfs::{
    poll_read_buf_at_pos, DataType, HamtHashFunction, Links, Node, PbLink, PbNode, ReadBuf,
    ResponseClip, Unixfs, UnixfsData,
};

fn data(typ: i32) -> UnixfsData {
    UnixfsData {
        typ,
        data: Some(vec![1, 2, 3]),
        filesize: Some(3),
        blocksizes: vec![3],
        hash_type: Some(0x22),
        fanout: Some(256),
    }
}

#[test]
fn node_accessors_read_the_payload() {
    let node = Node { outer: PbNode { data: None, links: vec![] }, inner: data(2) };
    assert_eq!(node.typ(), DataType::File);
    assert_eq!(node.filesize(), Some(3));
    assert_eq!(node.blocksizes(), &vec![3]);
    assert_eq!(node.size(), Some(3));
    assert_eq!(node.hash_type(), Some(HamtHashFunction::Murmur3));
    assert_eq!(node.fanout(), Some(256));
}

#[test]
fn node_with_links_has_no_local_size() {
    let link = PbLink { hash: vec![9, 9], name: Some(b"child".to_vec()), tsize: Some(40) };
    let node = Node { outer: PbNode { data: None, links: vec![link] }, inner: data(1) };
    assert_eq!(node.size(), None);
    match node.links() {
        Links::Directory(ls) => {
            assert_eq!(ls.len(), 1);
            assert_eq!(ls[0].hash, vec![9, 9]);
            assert_eq!(ls[0].name, Some(b"child".to_vec()));
            assert_eq!(ls[0].tsize, Some(40));
        }
        other => panic!("expected directory links, got {:?}", other),
    }
}

#[test]
fn unixfs_typ_decodes_the_wire_code() {
    let fs = Unixfs { inner: data(5) };
    assert_eq!(fs.typ(), DataType::HamtShard);
    assert_eq!(fs.data(), &Some(vec![1, 2, 3]));
}

#[test]
fn unsupported_hash_type_and_large_fanout_are_dropped() {
    let mut d = data(5);
    d.hash_type = Some(0x23);
    d.fanout = Some(u64::MAX);
    let node = Node { outer: PbNode { data: None, links: vec![] }, inner: d };
    assert_eq!(node.hash_type(), None);
    assert_eq!(node.fanout(), None);
}

#[test]
fn overrides_map_reflects_present_options() {
    let args = Args {
        port: Some(9050),
        writeable: None,
        fetch: Some(true),
        cache: None,
        metrics: true,
        tracing: false,
        cfg: None,
        denylist: false,
        num_threads: None,
    };
    let map = args.make_overrides_map();
    let pairs: Vec<(String, String)> = map;
    assert_eq!(
        pairs,
        vec![
            ("port".to_string(), "9050".to_string()),
            ("fetch".to_string(), "true".to_string()),
            ("denylist".to_string(), "false".to_string()),
            ("metrics.collect".to_string(), "true".to_string()),
            ("metrics.tracing".to_string(), "false".to_string()),
        ]
    );
}

#[test]
fn decimal_rendering_is_exact() {
    assert_eq!(dec_string(0), "0");
    assert_eq!(dec_string(7), "7");
    assert_eq!(dec_string(65535), "65535");
    assert_eq!(dec_string(1024 * 1024), "1048576");
}

#[test]
fn mount_record_is_laid_out_from_drive() {
    let drive = Drive {
        name: b"photos".to_vec(),
        cid: vec![1, 113, 18, 32],
        key: None,
        private_name: Some(b"secret".to_vec()),
    };
    let mount = MountV0::from(drive);
    assert_eq!(mount.name, b"photos".to_vec());
    assert_eq!(mount.cid, vec![1, 113, 18, 32]);
    assert_eq!(mount.key, None);
    assert_eq!(mount.private_name, Some(b"secret".to_vec()));
}

#[test]
fn versioned_records_keep_their_payload() {
    let meta = Versioned(MetadataV0 { codec: 0x71, multihash: vec![18, 32, 5] });
    assert_eq!(meta.0.codec, 0x71);
    let graph = Versioned(GraphV0 { children: vec![4, 5, 6] });
    assert_eq!(graph.0.children, vec![4, 5, 6]);
}

#[test]
fn store_conversation_shapes_round_trip_by_hand() {
    let one = One::default();
    assert_eq!(one, One {});
    let req = StoreRequest::get_size(GetSizeRequest { cid: vec![1, 2] });
    match req {
        StoreRequest::get_size(r) => assert_eq!(r.cid, vec![1, 2]),
        other => panic!("unexpected request {:?}", other),
    }
    let resp = StoreResponse::has(Ok(HasResponse { has: true }));
    match resp {
        StoreResponse::has(Ok(r)) => assert!(r.has),
        other => panic!("unexpected response {:?}", other),
    }
    let v = StoreResponse::version(Ok(VersionResponse { version: b"0.1.0".to_vec() }));
    match v {
        StoreResponse::version(Ok(r)) => assert_eq!(r.version, b"0.1.0".to_vec()),
        other => panic!("unexpected response {:?}", other),
    }
}

#[test]
fn positioned_read_respects_clip_and_capacity() {
    let data: Vec<u8> = (0u8..10).collect();
    let mut pos: usize = 2;
    let mut buf = ReadBuf::new(3);
    poll_read_buf_at_pos(&mut pos, ResponseClip::Clip(6), &data, &mut buf);
    assert_eq!(pos, 5);
    assert_eq!(buf.filled, vec![2, 3, 4]);
    // at the clip boundary nothing more is read
    let mut pos2: usize = 6;
    let mut buf2 = ReadBuf::new(8);
    poll_read_buf_at_pos(&mut pos2, ResponseClip::Clip(6), &data, &mut buf2);
    assert_eq!(pos2, 6);
    assert!(buf2.filled.is_empty());
    // without a clip the whole tail fits
    let mut pos3: usize = 6;
    let mut buf3 = ReadBuf::new(8);
    poll_read_buf_at_pos(&mut pos3, ResponseClip::NoClip, &data, &mut buf3);
    assert_eq!(pos3, 10);
    assert_eq!(buf3.filled, vec![6, 7, 8, 9]);
}
