use termwindow_render::hash::{bridge_for, hash3};
use termwindow_render::rain_frame::describe_column;
use termwindow_render::single::Single;

fn reference(words: [u32; 3]) -> u32 {
    let mut h = 0x811c_9dc5u32;
    for v in words {
        h ^= v;
        h = h.wrapping_mul(0x0100_0193);
    }
    h
}

#[test]
fn hash_follows_the_rounds() {
    for a in [0u32, 1, 2, 77, 1 << 20, u32::MAX] {
        for b in [0u32, 1, 5, 1000] {
            for c in [0u32, 9, u32::MAX] {
                assert_eq!(hash3(a, b, c), reference([a, b, c]));
            }
        }
    }
}

#[test]
fn hash_depends_on_each_word() {
    assert_ne!(hash3(1, 2, 3), hash3(0, 2, 3));
    assert_ne!(hash3(1, 2, 3), hash3(1, 0, 3));
    assert_ne!(hash3(1, 2, 3), hash3(1, 2, 0));
    assert_ne!(hash3(1, 2, 3), hash3(3, 2, 1));
    assert_eq!(hash3(0, 0, 0), 0x4ab0_f7b7);
    assert_eq!(hash3(1, 2, 3), 0x56cf_37ab);
}

#[test]
fn bridge_is_one_or_two() {
    let mut seen = [false; 3];
    for c in 0..200usize {
        let bridge = bridge_for(c);
        assert_eq!(bridge, 1 + (reference([c as u32, 5, 0]) % 2) as i32);
        assert!(bridge == 1 || bridge == 2);
        seen[bridge as usize] = true;
    }
    assert!(seen[1] && seen[2]);
}

#[test]
fn wide_columns_hash_by_their_low_word() {
    let c = (1usize << 32) + 7;
    assert_eq!(bridge_for(c), bridge_for(7));
}

#[test]
fn columns_pick_lengths_in_range() {
    let mut shortest = i32::MAX;
    let mut longest = i32::MIN;
    for c in 0..500usize {
        let cd = describe_column(c, 10, Single::from_u64(0));
        assert_eq!(cd.matrix, 3 + (reference([c as u32, 1, 0]) % 10) as i32);
        assert_eq!(cd.gap, 1 + (reference([c as u32, 2, 0]) % 2) as i32);
        shortest = shortest.min(cd.matrix);
        longest = longest.max(cd.matrix);
    }
    assert_eq!((shortest, longest), (3, 12));
}
