//! IVF container.
use oxideav_vp8::ivf::{
    parse_frame_header, parse_header, probe, write_frame, write_frame_header, write_header,
    FrameEntry, IvfError, IvfHeader, IvfMuxer, MuxError, StreamDesc, FRAME_COUNT_AT,
    FRAME_HEADER_LEN, IVF_HEADER_LEN,
};

#[test]
fn probe_recognises_dkif_vp80() {
    let mut buf = vec![0u8; 32];
    buf[0..4].copy_from_slice(b"DKIF");
    buf[8..12].copy_from_slice(b"VP80");
    assert_eq!(probe(&buf), 100);
}

#[test]
fn probe_rejects_other_fourcc() {
    let mut buf = vec![0u8; 32];
    buf[0..4].copy_from_slice(b"DKIF");
    buf[8..12].copy_from_slice(b"VP90");
    assert_eq!(probe(&buf), 0);
}

#[test]
fn probe_rejects_non_dkif() {
    assert_eq!(probe(b"RIFF................VP80"), 0);
}

/// A stream of the given size, in thousandths of a second.
fn stream(width: Option<u32>, height: Option<u32>) -> StreamDesc {
    StreamDesc {
        video: true,
        vp8: true,
        width,
        height,
        rate: None,
        time_base: (1, 1000),
    }
}

/// Writes the given frames as a file.
fn mux(width: u32, height: u32, rate: (i64, i64), frames: &[(i64, Vec<u8>)]) -> Vec<u8> {
    let mut mux = IvfMuxer::new(&[StreamDesc {
        rate: Some(rate),
        time_base: (rate.1, rate.0),
        ..stream(Some(width), Some(height))
    }])
    .expect("mux");
    let mut out = mux.header_to_write().unwrap();
    mux.header_done();
    for (pts, data) in frames {
        let entry = mux.frame_to_write(data.len(), Some(*pts)).unwrap();
        out.extend_from_slice(&write_frame_header(entry));
        out.extend_from_slice(data);
        mux.frame_done();
    }
    let count = mux.count_to_write().unwrap();
    out[FRAME_COUNT_AT..FRAME_COUNT_AT + 4].copy_from_slice(&count);
    mux.trailer_done();
    assert_eq!(mux.count_to_write(), None);
    out
}

/// Reads the frame that starts at `at`.
fn next_frame(bytes: &[u8], at: &mut usize) -> Option<(i64, Vec<u8>)> {
    if *at == bytes.len() {
        return None;
    }
    let mut hdr = [0u8; FRAME_HEADER_LEN];
    hdr.copy_from_slice(&bytes[*at..*at + FRAME_HEADER_LEN]);
    let entry = parse_frame_header(&hdr);
    let from = *at + FRAME_HEADER_LEN;
    let to = from + entry.size as usize;
    *at = to;
    Some((entry.pts as i64, bytes[from..to].to_vec()))
}

#[test]
fn mux_then_demux_roundtrips_headers_and_payloads() {
    let payload0 = vec![0xaau8; 37];
    let payload1 = vec![0x5au8; 19];
    let bytes = mux(
        320,
        240,
        (30, 1),
        &[(0, payload0.clone()), (1, payload1.clone())],
    );

    assert_eq!(&bytes[0..4], b"DKIF");
    assert_eq!(&bytes[8..12], b"VP80");
    assert_eq!(u16::from_le_bytes([bytes[12], bytes[13]]), 320);
    assert_eq!(u16::from_le_bytes([bytes[14], bytes[15]]), 240);
    assert_eq!(
        u32::from_le_bytes([bytes[24], bytes[25], bytes[26], bytes[27]]),
        2,
        "trailer must patch frame_count"
    );

    let mut hdr = [0u8; IVF_HEADER_LEN];
    hdr.copy_from_slice(&bytes[..IVF_HEADER_LEN]);
    let header = parse_header(&hdr).expect("demux");
    assert_eq!(header.width, 320);
    assert_eq!(header.height, 240);
    assert_eq!(header.time_base(), (1, 30));
    assert_eq!(header.frame_rate(), Some((30, 1)));
    let mut at = header.header_len as usize;
    let (t0, r0) = next_frame(&bytes, &mut at).expect("pkt 0");
    assert_eq!(r0, payload0);
    assert_eq!(t0, 0);
    let (t1, r1) = next_frame(&bytes, &mut at).expect("pkt 1");
    assert_eq!(r1, payload1);
    assert_eq!(t1, 1);
    assert_eq!(next_frame(&bytes, &mut at), None);
}

#[test]
fn header_faults_come_in_order() {
    let good = IvfHeader::vp8(16, 8, 25, 2);
    let bytes = oxideav_vp8::ivf::write_header(&good);
    let mut hdr = [0u8; 32];
    hdr.copy_from_slice(&bytes);
    assert_eq!(parse_header(&hdr), Ok(good));
    let mut bad = hdr;
    bad[8] = b'A';
    assert_eq!(parse_header(&bad), Err(IvfError::UnsupportedFourCc(*b"AP80")));
    bad[6] = 31;
    assert_eq!(parse_header(&bad), Err(IvfError::HeaderTooShort));
    bad[5] = 1;
    assert_eq!(parse_header(&bad), Err(IvfError::UnsupportedVersion(256)));
    bad[3] = 0;
    assert_eq!(parse_header(&bad), Err(IvfError::BadMagic));
}

#[test]
fn header_without_rate_ticks_in_thousandths() {
    let h = IvfHeader::vp8(16, 8, 0, 7);
    assert_eq!(h.time_base(), (1, 1000));
    assert_eq!(h.frame_rate(), None);
}

#[test]
fn muxer_refuses_what_it_cannot_write() {
    let e = |w: Option<u32>, h: Option<u32>| IvfMuxer::new(&[stream(w, h)]).unwrap_err();
    assert_eq!(e(None, None), MuxError::MissingWidth);
    assert_eq!(e(Some(1), None), MuxError::MissingHeight);
    assert_eq!(
        e(Some(0x1_0000), Some(1)),
        MuxError::DimensionsOutOfRange {
            width: 0x1_0000,
            height: 1
        }
    );
    let good = stream(Some(2), Some(3));
    assert_eq!(IvfMuxer::new(&[]), Err(MuxError::NotOneStream));
    assert_eq!(IvfMuxer::new(&[good, good]), Err(MuxError::NotOneStream));
    let audio = StreamDesc { video: false, ..good };
    assert_eq!(IvfMuxer::new(&[audio]), Err(MuxError::NotVideo));
    let other = StreamDesc { vp8: false, ..good };
    assert_eq!(IvfMuxer::new(&[other]), Err(MuxError::OtherCodec));
    let mut m = IvfMuxer::new(&[good]).unwrap();
    assert_eq!((m.header.fr_num, m.header.fr_den), (1000, 1));
    assert_eq!(m.frame_to_write(4, None), Err(MuxError::HeaderNotWritten));
    m.header_done();
    assert_eq!(m.header_to_write(), Err(MuxError::HeaderWrittenTwice));
    m.frame_done();
    assert_eq!(m.frame_to_write(4, None).unwrap().pts, 1);
    assert_eq!(m.frame_to_write(4, Some(-1)).unwrap().pts, u64::MAX);
}

#[test]
fn rate_is_cut_to_what_a_header_holds() {
    let slow = StreamDesc { rate: Some((-5, 0)), ..stream(Some(2), Some(3)) };
    let m = IvfMuxer::new(&[slow]).unwrap();
    assert_eq!((m.header.fr_num, m.header.fr_den), (0, 1));
}

#[test]
fn file_reads_back_frame_by_frame() {
    let header = IvfHeader::vp8(320, 240, 30, 1);
    let mut out = write_header(&header);
    write_frame(&mut out, 7, &[1, 2, 3]);
    write_frame(&mut out, u64::MAX, &[]);
    assert_eq!(out.len(), 32 + 12 + 3 + 12);
    let mut head = [0u8; 32];
    head.copy_from_slice(&out[..32]);
    assert_eq!(parse_header(&head), Ok(header));
    let mut entry = [0u8; 12];
    entry.copy_from_slice(&out[32..44]);
    assert_eq!(parse_frame_header(&entry), FrameEntry { size: 3, pts: 7 });
    assert_eq!(&out[44..47], &[1, 2, 3]);
    entry.copy_from_slice(&out[47..59]);
    assert_eq!(parse_frame_header(&entry), FrameEntry { size: 0, pts: u64::MAX });
}
