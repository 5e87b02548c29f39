use swyh_rs::convert::{convert_i16_into, convert_u16_into, u16_to_i16, SampleKind, WavData};
use swyh_rs::registry::ClientRegistry;
use swyh_rs::rms::RmsWindow;
use swyh_rs::server::{
    content_type, decimal_string, plan_response, remote_ip_of, route, stream_ended,
    stream_started, transfer_policy, HttpMethod, Route, StreamConfig, StreamingState,
    CHUNKED_THRESHOLD,
};
use swyh_rs::stream::{wav_header_bytes, ChannelStream, WAV_HEADER_LEN};

const PATH: &str = "/stream/swyh.wav";

fn stereo_wd(rate: u32) -> WavData {
    WavData { sample_format: SampleKind::I16, sample_rate: rate, channels: 2 }
}

#[test]
fn unsigned_midpoint_maps_to_zero() {
    assert_eq!(u16_to_i16(32768), 0);
    assert_eq!(u16_to_i16(0), i16::MIN);
    assert_eq!(u16_to_i16(65535), i16::MAX);
    let mut out = Vec::new();
    convert_u16_into(&[32768, 0, 65535, 32769], &mut out);
    assert_eq!(out, vec![0, -32768, 32767, 1]);
}

#[test]
fn signed_samples_pass_through() {
    let mut out = vec![9, 9, 9, 9, 9];
    convert_i16_into(&[1, -1, i16::MAX, i16::MIN], &mut out);
    assert_eq!(out, vec![1, -1, i16::MAX, i16::MIN]);
}

#[test]
fn rms_constant_amplitude_one_window() {
    // 441 Hz stereo: a window of 88 samples
    let mut w = RmsWindow::new(&stereo_wd(441));
    let a: i16 = 1000;
    let samples: Vec<i16> = (0..88).map(|i| if i % 4 < 2 { a } else { -a }).collect();
    let levels = w.feed(&samples);
    assert_eq!(levels, vec![(1_000_000, 1_000_000)]);
    let rms = (levels[0].0 as f64).sqrt();
    assert!((rms - 1000.0).abs() < 1e-9);
}

#[test]
fn rms_window_spans_batches() {
    let mut w = RmsWindow::new(&stereo_wd(20));
    // window of 4 samples; channels follow the position within each batch
    assert_eq!(w.feed(&[3, 4]), vec![]);
    assert_eq!(w.feed(&[3, 4, 10]), vec![((9 + 9) / 2, (16 + 16) / 2)]);
    // three left samples (10, 0, 0) and one right sample (0)
    assert_eq!(w.feed(&[0, 0, 0]), vec![(100 / 3, 0)]);
}

#[test]
fn registry_insert_remove_fifty_keys() {
    let mut reg: ClientRegistry<u32> = ClientRegistry::new();
    let keys: Vec<String> = (0..50).map(|i| format!("10.0.0.{}:{}", i, 4000 + i)).collect();
    for (i, k) in keys.iter().enumerate() {
        reg.insert(k.clone(), remote_ip_of(k), i as u32);
        assert!(reg.contains_key(k));
    }
    assert_eq!(reg.len(), 50);
    for (i, k) in keys.iter().enumerate() {
        assert_eq!(reg.get(k), Some(&(i as u32)));
    }
    // a fixed shuffle of the removal order
    let mut order: Vec<usize> = (0..50).map(|i| (i * 17 + 5) % 50).collect();
    order.dedup();
    assert_eq!(order.len(), 50);
    for (n, &i) in order.iter().enumerate() {
        assert_eq!(reg.remove(&keys[i]), Some(i as u32));
        assert!(!reg.contains_key(&keys[i]));
        assert_eq!(reg.len(), 49 - n);
        for &j in order[n + 1..].iter() {
            assert!(reg.contains_key(&keys[j]));
        }
    }
    assert_eq!(reg.len(), 0);
    assert_eq!(reg.remove(&keys[0]), None);
}

#[test]
fn registry_insert_replaces_same_key() {
    let mut reg: ClientRegistry<u32> = ClientRegistry::new();
    reg.insert("1.2.3.4:5".to_string(), "1.2.3.4".to_string(), 1);
    reg.insert("1.2.3.4:5".to_string(), "1.2.3.4".to_string(), 2);
    assert_eq!(reg.len(), 1);
    assert_eq!(reg.get(&"1.2.3.4:5".to_string()), Some(&2));
    assert!(reg.contains_ip(&"1.2.3.4".to_string()));
    assert!(!reg.contains_ip(&"1.2.3.5".to_string()));
}

fn drain(s: &mut ChannelStream) -> Vec<u8> {
    let mut all = Vec::new();
    loop {
        let chunk = s.read(1000);
        if chunk.is_empty() {
            return all;
        }
        all.extend(chunk);
    }
}

#[test]
fn two_connections_get_identical_bytes_after_preroll() {
    let mut a = ChannelStream::new("10.0.0.1".to_string(), false, 8, 1000);
    let mut b = ChannelStream::new("10.0.0.2".to_string(), false, 8, 500);
    a.create_silence(8);
    b.create_silence(8);
    a.write(&[5, 6]);
    let pa = drain(&mut a);
    let pb = drain(&mut b);
    assert_eq!(pa.len(), 16 * 2 + 4);
    assert_eq!(pb.len(), 16 * 2);
    assert!(pb.iter().all(|&x| x == 0));
    let batches: Vec<Vec<i16>> = vec![vec![1, -1, 256, -256], vec![i16::MAX, i16::MIN]];
    for bt in batches.iter() {
        a.write(bt);
        b.write(bt);
    }
    let oa = drain(&mut a);
    let ob = drain(&mut b);
    assert_eq!(oa, ob);
    assert_eq!(oa, vec![0, 1, 255, 255, 1, 0, 255, 0, 127, 255, 128, 0]);
}

#[test]
fn same_capacity_connections_agree_when_samples_are_dropped() {
    let mut a = ChannelStream::new("10.0.0.1".to_string(), true, 8, 6);
    let mut b = ChannelStream::new("10.0.0.2".to_string(), true, 8, 6);
    a.create_silence(8);
    b.create_silence(8);
    drain(&mut a);
    drain(&mut b);
    for bt in [vec![1i16, 2, 3, 4], vec![5, 6, 7, 8], vec![9]] {
        a.write(&bt);
        b.write(&bt);
    }
    let oa = drain(&mut a);
    assert_eq!(oa, drain(&mut b));
    assert_eq!(oa, vec![4, 0, 5, 0, 6, 0, 7, 0, 8, 0, 9, 0]);
}

#[test]
fn wave_stream_starts_with_header_and_is_little_endian() {
    let mut s = ChannelStream::new("h".to_string(), true, 44100, 100);
    s.write(&[0x0102]);
    let out = drain(&mut s);
    assert_eq!(out.len(), WAV_HEADER_LEN + 2);
    assert_eq!(&out[0..4], b"RIFF");
    assert_eq!(&out[8..16], b"WAVEfmt ");
    assert_eq!(&out[22..24], &[2, 0]);
    assert_eq!(&out[24..28], &44100u32.to_le_bytes());
    assert_eq!(&out[28..32], &(44100u32 * 4).to_le_bytes());
    assert_eq!(&out[34..36], &[16, 0]);
    assert_eq!(&out[36..40], b"data");
    assert_eq!(&out[44..46], &[2, 1]);
    assert_eq!(wav_header_bytes(44100), out[0..44].to_vec());
}

#[test]
fn preroll_is_one_second_of_stereo_silence() {
    let mut s = ChannelStream::new("h".to_string(), false, 48000, 1_000_000);
    s.create_silence(48000);
    let out = drain(&mut s);
    assert_eq!(out.len(), 48000 * 2 * 2);
    assert!(out.iter().all(|&x| x == 0));
}

#[test]
fn full_queue_drops_oldest_samples() {
    let mut s = ChannelStream::new("h".to_string(), false, 8000, 4);
    s.write(&[1, 2, 3]);
    s.write(&[4, 5, 6]);
    let out = drain(&mut s);
    assert_eq!(out, vec![0, 3, 0, 4, 0, 5, 0, 6]);
}

#[test]
fn odd_sized_reads_keep_byte_order() {
    let mut s = ChannelStream::new("h".to_string(), false, 8000, 10);
    s.write(&[0x0102, 0x0304]);
    assert_eq!(s.read(1), vec![1]);
    assert_eq!(s.read(2), vec![2, 3]);
    assert_eq!(s.read(5), vec![4]);
    assert_eq!(s.read(5), Vec::<u8>::new());
    assert_eq!(s.remote_ip(), "h");
    assert!(!s.use_wave_format());
    assert_eq!(s.sample_rate(), 8000);
}

#[test]
fn chunked_transfer_policy() {
    let off = transfer_policy(true);
    assert_eq!(off.content_length, Some(usize::MAX - 1));
    assert_eq!(off.chunked_threshold, usize::MAX);
    let on = transfer_policy(false);
    assert_eq!(on.content_length, None);
    assert_eq!(on.chunked_threshold, 8192);
    assert_eq!(CHUNKED_THRESHOLD, 8192);
}

fn header_names(h: &[(String, String)]) -> Vec<&str> {
    h.iter().map(|p| p.0.as_str()).collect()
}

#[test]
fn other_paths_get_404_for_every_method() {
    let cfg = StreamConfig { use_wave_format: false, disable_chunked: false };
    for m in [HttpMethod::Get, HttpMethod::Head, HttpMethod::Post, HttpMethod::Other] {
        for url in ["/", "/stream/other.wav", "/stream/swyh.wav/", ""] {
            assert_eq!(route(m, url, PATH), Route::NotFound);
            let p = plan_response(m, url, PATH, cfg, 44100).unwrap();
            assert_eq!(p.status, 404);
            assert_eq!(header_names(&p.headers), vec!["Connection", "Server", "icy-name"]);
            assert!(p.transfer.is_none());
        }
    }
}

#[test]
fn stream_path_responses() {
    let cfg = StreamConfig { use_wave_format: false, disable_chunked: true };
    let g = plan_response(HttpMethod::Get, PATH, PATH, cfg, 44100).unwrap();
    assert_eq!(g.status, 200);
    assert_eq!(
        header_names(&g.headers),
        vec!["Connection", "Content-Type", "TransferMode.DLNA.ORG", "Server", "icy-name"]
    );
    assert_eq!(g.headers[1].1, "audio/L16;rate=44100;channels=2");
    assert_eq!(g.headers[3].1, "UPnP/1.0 DLNADOC/1.50 LAB/1.0");
    assert_eq!(g.transfer.unwrap().content_length, Some(usize::MAX - 1));
    let h = plan_response(HttpMethod::Head, PATH, PATH, cfg, 44100).unwrap();
    assert_eq!(h.status, 200);
    assert_eq!(header_names(&h.headers), header_names(&g.headers));
    assert!(h.transfer.is_none());
    let p = plan_response(HttpMethod::Post, PATH, PATH, cfg, 44100).unwrap();
    assert_eq!(p.status, 200);
    assert_eq!(header_names(&p.headers), vec!["Connection", "Server", "icy-name"]);
    assert!(plan_response(HttpMethod::Other, PATH, PATH, cfg, 44100).is_none());
}

#[test]
fn content_type_strings() {
    assert_eq!(content_type(true, 48000), "audio/vnd.wave;codec=1");
    assert_eq!(content_type(false, 48000), "audio/L16;rate=48000;channels=2");
    assert_eq!(content_type(false, 0), "audio/L16;rate=0;channels=2");
    assert_eq!(decimal_string(4294967295), "4294967295");
}

#[test]
fn remote_ip_strips_port() {
    assert_eq!(remote_ip_of("192.168.1.20:51234"), "192.168.1.20");
    assert_eq!(remote_ip_of("[fe80::1]:80"), "[fe80::1]");
    assert_eq!(remote_ip_of("hostonly"), "hostonly");
}

#[test]
fn ended_reported_once_when_last_connection_closes() {
    let mut reg: ClientRegistry<u8> = ClientRegistry::new();
    let k1 = "10.0.0.9:1000".to_string();
    let ip = remote_ip_of(&k1);
    let f = stream_started(&mut reg, k1.clone(), ip.clone(), 1);
    assert_eq!(f.streaming_state, StreamingState::Started);
    assert_eq!(f.remote_ip, "10.0.0.9");
    assert_eq!(reg.get(&k1), Some(&1));
    assert!(reg.contains_ip(&ip));
    let e = stream_ended(&mut reg, &k1, &ip).unwrap();
    assert_eq!(e.streaming_state, StreamingState::Ended);
    assert_eq!(e.remote_ip, "10.0.0.9");
    assert_eq!(reg.len(), 0);
}

#[test]
fn no_ended_while_same_ip_still_connected() {
    let mut reg: ClientRegistry<u8> = ClientRegistry::new();
    let k1 = "10.0.0.9:1000".to_string();
    let k2 = "10.0.0.9:1001".to_string();
    let ip = remote_ip_of(&k1);
    stream_started(&mut reg, k1.clone(), ip.clone(), 1);
    stream_started(&mut reg, k2.clone(), ip.clone(), 2);
    assert!(stream_ended(&mut reg, &k1, &ip).is_none());
    assert!(stream_ended(&mut reg, &k2, &ip).is_some());
}

#[test]
fn discarding_log_accepts_messages() {
    swyh_rs::dummy_log("resumed".to_string());
}
