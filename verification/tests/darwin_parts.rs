use rmon::darwin::{
    boot_uptime, brand_from_buf, iflist_totals, media_disk, processor_ticks, sensor_group, task_process,
    temp_source, vm_memory, volume, SensorGroup,
};

fn message(len: u16, kind: u8, ifi_type: u8, ibytes: u64, obytes: u64) -> Vec<u8> {
    let mut m = vec![0u8; len as usize];
    m[0..2].copy_from_slice(&len.to_le_bytes());
    m[3] = kind;
    if len as usize >= 112 {
        m[32] = ifi_type;
        m[96..104].copy_from_slice(&ibytes.to_le_bytes());
        m[104..112].copy_from_slice(&obytes.to_le_bytes());
    }
    m
}

#[test]
fn iflist_sums_non_loopback_counters() {
    let mut buf = Vec::new();
    buf.extend(message(112, 0x12, 6, 1000, 2000)); // en0
    buf.extend(message(112, 0x12, 0x18, 5, 7)); // lo0
    buf.extend(message(40, 0x0c, 0, 0, 0)); // an address message
    buf.extend(message(120, 0x12, 6, 24, 48)); // en1, a longer message
    assert_eq!(iflist_totals(&buf), (1024, 2048));
    // a zero-length message ends the walk
    let mut stop = message(112, 0x12, 6, 1, 1);
    stop.extend(vec![0u8; 32]);
    stop.extend(message(112, 0x12, 6, 100, 100));
    assert_eq!(iflist_totals(&stop), (1, 1));
    // a truncated tail is ignored
    let mut short = message(112, 0x12, 6, 3, 4);
    short.extend(vec![0x70, 0, 0, 0x12]);
    assert_eq!(iflist_totals(&short), (3, 4));
    assert_eq!(iflist_totals(&Vec::new()), (0, 0));
}

#[test]
fn processor_ticks_group_by_four() {
    let snap = processor_ticks(&vec![10, 5, 100, 1, 20, 0, 200, 0, 7]);
    assert_eq!(snap.per_core.len(), 2);
    assert_eq!((snap.per_core[0].busy, snap.per_core[0].idle), (16, 100));
    assert_eq!((snap.per_core[1].busy, snap.per_core[1].idle), (20, 200));
    assert_eq!((snap.total.busy, snap.total.idle), (36, 300));
    // counters are the kernel's unsigned 32 bits: no sign extension at wrap
    let wrapped = processor_ticks(&vec![-1, 0, -2, 0]);
    assert_eq!(wrapped.total.busy, 4_294_967_295);
    assert_eq!(wrapped.total.idle, 4_294_967_294);
}

#[test]
fn vm_memory_counts_active_wired_and_compressed() {
    let m = vm_memory(16 << 30, 100, 50, 10, 16384, Some((4 << 30, 1 << 30)));
    assert_eq!(m.used, 160 * 16384);
    assert_eq!(m.available, (16 << 30) - 160 * 16384);
    assert_eq!((m.swap_total, m.swap_used), (4 << 30, 1 << 30));
    let capped = vm_memory(1000, 1, 0, 0, 4096, None);
    assert_eq!((capped.used, capped.available, capped.swap_total, capped.swap_used), (1000, 0, 0, 0));
}

#[test]
fn volumes_keep_root_and_user_disks() {
    let root = volume("/", "apfs", 1000, 4096, 250).expect("root is shown");
    assert_eq!((root.mount_point.as_str(), root.total, root.available), ("/", 4_096_000, 1_024_000));
    assert!(volume("/Volumes/USB", "msdos", 10, 512, 5).is_some());
    assert!(volume("/System/Volumes/Data", "apfs", 1000, 4096, 250).is_none());
    assert!(volume("/", "nfs", 1000, 4096, 250).is_none());
    assert!(volume("/Volumes/Empty", "hfs", 0, 4096, 0).is_none());
}

#[test]
fn uptime_from_boot_time() {
    assert_eq!(boot_uptime(100, 250), Some(150));
    assert_eq!(boot_uptime(0, 250), None);
    assert_eq!(boot_uptime(-5, 250), None);
    assert_eq!(boot_uptime(300, 250), None);
}

#[test]
fn task_process_cuts_name_and_scales_time() {
    let mut buf = b"Finder\0garbage".to_vec();
    buf.resize(64, 0x41);
    let p = task_process(42, &buf, 3, 3, 125, 3, 4096, Some((10, 20)));
    assert_eq!(p.name, "Finder");
    assert_eq!((p.pid, p.ppid, p.cpu_ns, p.rss), (42, 0, 250, 4096));
    assert_eq!((p.disk_read, p.disk_written), (Some(10), Some(20)));
    assert!(p.threads.is_empty());
    let q = task_process(7, &b"full".to_vec(), u64::MAX, u64::MAX, 0, 0, 0, None);
    assert_eq!(q.name, "full");
    assert_eq!(q.cpu_ns, u64::MAX);
    assert_eq!((q.disk_read, q.disk_written), (None, None));
}

#[test]
fn media_disk_defaults_and_service_time() {
    let d = media_disk(Some("disk0".into()), Some(10), Some(20), Some(1), Some(2), Some(300), Some(400));
    assert_eq!(d.name, "disk0");
    assert_eq!((d.read_bytes, d.written_bytes, d.read_ops, d.write_ops), (10, 20, 1, 2));
    assert_eq!((d.busy_time_ns, d.io_time_ns, d.weighted_ns), (Some(700), Some(700), None));
    let synthetic = media_disk(None, None, Some(5), None, None, Some(1), None);
    assert_eq!(synthetic.name, "disk?");
    assert_eq!((synthetic.read_bytes, synthetic.written_bytes), (0, 5));
    assert_eq!(synthetic.io_time_ns, None);
}

#[test]
fn brand_is_trimmed_text_before_nul() {
    assert_eq!(brand_from_buf(&b"  Apple M1 Pro \0xx".to_vec()).as_deref(), Some("Apple M1 Pro"));
    assert_eq!(brand_from_buf(&b"\0Apple".to_vec()), None);
    assert_eq!(brand_from_buf(&vec![0xff, 0xfe, 0]), None);
    assert_eq!(brand_from_buf(&b"Intel(R) Core(TM)".to_vec()).as_deref(), Some("Intel(R) Core(TM)"));
}

#[test]
fn sensor_groups_by_product_name() {
    assert_eq!(sensor_group("PMU tdie3"), Some(SensorGroup::Die));
    assert_eq!(sensor_group("eACC MTR Temp Sensor0"), Some(SensorGroup::Cluster));
    assert_eq!(sensor_group("pACC MTR Temp Sensor2"), Some(SensorGroup::Cluster));
    assert_eq!(sensor_group("SOC MTR Temp Sensor1"), Some(SensorGroup::Soc));
    assert_eq!(sensor_group("NAND CH0 temp"), None);
    assert_eq!(temp_source(0, 3, 1), Some(SensorGroup::Cluster));
    assert_eq!(temp_source(2, 3, 1), Some(SensorGroup::Die));
    assert_eq!(temp_source(0, 0, 0), None);
}
