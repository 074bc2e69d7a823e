use virtio_drivers::{BufferDirection, DescFlags, Descriptor, Error, VirtioBlk};

#[test]
fn set_buf_marks_device_writable_buffers() {
    let mut d = Descriptor::zeroed();
    d.set_buf(0x5000, 64, BufferDirection::DeviceToDriver, DescFlags::empty());
    assert_eq!((d.addr, d.len, d.flags.bits), (0x5000, 64, 2));
    assert_eq!(d.next(), None);
    d.next = 7;
    d.set_buf(0x6000, 8, BufferDirection::DriverToDevice, DescFlags::next_only());
    assert_eq!((d.addr, d.len, d.flags.bits), (0x6000, 8, 1));
    assert_eq!(d.next(), Some(7));
    d.set_buf(0x6000, 8, BufferDirection::DeviceToDriver, DescFlags::next_only());
    assert_eq!(d.flags.bits, 3);
    assert_eq!(d.next(), Some(7));
}

#[test]
fn unset_buf_clears_address_and_length_only() {
    let mut d = Descriptor::zeroed();
    d.next = 3;
    d.set_buf(0x5000, 64, BufferDirection::DriverToDevice, DescFlags::next_only());
    d.unset_buf();
    assert_eq!((d.addr, d.len, d.flags.bits), (0, 0, 1));
    assert_eq!(d.next(), Some(3));
}

#[test]
fn flag_sets_combine() {
    let f = DescFlags::next_only().union(DescFlags { bits: 4 });
    assert_eq!(f.bits, 5);
    assert!(f.contains(DescFlags::next_only()));
    assert!(!f.contains(DescFlags { bits: 2 }));
    assert!(f.contains(DescFlags::empty()));
}

#[test]
fn error_messages() {
    assert_eq!(Error::QueueFull.message(), "Virtqueue is full");
    assert_eq!(Error::InvalidParam.message(), "Invalid parameter");
    assert_eq!(
        Error::WrongToken.message(),
        "Device used a different descriptor chain to the one we were expecting"
    );
    assert_eq!(Error::ConfigSpaceMissing.message(), "The device doesn't have any config space, but the driver expects some");
}

#[test]
fn block_device_holds_a_sixteen_entry_queue() {
    let blk = VirtioBlk::new(256, 0x1_0000, true).unwrap();
    assert_eq!(blk.capacity(), 0x1_0000);
    assert!(blk.readonly());
    assert_eq!(blk.queue().size(), 16);
    assert_eq!(blk.queue().num_free(), 16);
    assert_eq!(VirtioBlk::new(8, 0, false).err(), Some(Error::InvalidParam));
}

#[test]
fn descriptor_bytes_are_little_endian_in_field_order() {
    let mut d = Descriptor::zeroed();
    d.next = 0x0203;
    d.set_buf(0x1122_3344_5566_7788, 0x99aa_bbcc, BufferDirection::DeviceToDriver, DescFlags::next_only());
    let b = d.to_bytes();
    assert_eq!(
        b,
        vec![
            0x88, 0x77, 0x66, 0x55, 0x44, 0x33, 0x22, 0x11, 0xcc, 0xbb, 0xaa, 0x99, 0x03, 0x00, 0x03, 0x02
        ]
    );
    let back = Descriptor::from_bytes(&b).unwrap();
    assert_eq!((back.addr, back.len, back.flags.bits, back.next), (d.addr, d.len, 3, 0x0203));
}

#[test]
fn from_bytes_needs_exactly_one_descriptor() {
    assert!(Descriptor::from_bytes(&[0u8; 15]).is_none());
    assert!(Descriptor::from_bytes(&[0u8; 17]).is_none());
    let d = Descriptor::from_bytes(&[0xffu8; 16]).unwrap();
    assert_eq!((d.addr, d.len, d.flags.bits, d.next), (u64::MAX, u32::MAX, 0xffff, 0xffff));
}
