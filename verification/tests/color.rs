use talkdedsec_visual::color::{identity, LEVELS};

#[test]
fn identity_stretches_each_level_onto_sixteen_bits() {
    let ramp = identity();
    assert_eq!(ramp.len(), 3 * LEVELS);
    for channel in 0..3 {
        assert_eq!(ramp[channel * LEVELS], 0);
        assert_eq!(ramp[channel * LEVELS + 1], 257);
        assert_eq!(ramp[channel * LEVELS + 128], 32896);
        assert_eq!(ramp[channel * LEVELS + 255], 65535);
    }
}

#[test]
fn identity_is_the_same_on_every_channel_and_rises() {
    let ramp = identity();
    for i in 0..LEVELS {
        assert_eq!(ramp[i], (i * 257) as u16);
        assert_eq!(ramp[LEVELS + i], ramp[i]);
        assert_eq!(ramp[2 * LEVELS + i], ramp[i]);
        if i > 0 {
            assert!(ramp[i] > ramp[i - 1]);
        }
    }
}
