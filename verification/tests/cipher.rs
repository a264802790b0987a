use caesar::ascii_lower_letter;
use caesar::caesar_cipher;
use caesar::caesar_shift_character;
use caesar::get_ascii_lower_index;
use caesar::shift_letter_index;

#[test]
fn test_get_ascii_lower_index() {
    assert_eq!(get_ascii_lower_index('a'), Some(0));
    assert_eq!(get_ascii_lower_index('z'), Some(25));
    assert_eq!(get_ascii_lower_index('m'), Some(12));
    assert_eq!(get_ascii_lower_index('A'), None);
    assert_eq!(get_ascii_lower_index('1'), None);
    assert_eq!(get_ascii_lower_index('&'), None);
    assert_eq!(get_ascii_lower_index(' '), None);
    assert_eq!(get_ascii_lower_index('é'), None);
}

#[test]
fn test_ascii_lower_letter() {
    assert_eq!(ascii_lower_letter(0), 'a');
    assert_eq!(ascii_lower_letter(12), 'm');
    assert_eq!(ascii_lower_letter(25), 'z');
}

#[test]
fn test_shift_letter_index() {
    assert_eq!(shift_letter_index(5, 10), 15);
    assert_eq!(shift_letter_index(5, -10), 21);
    assert_eq!(shift_letter_index(0, -1), 25);
    assert_eq!(shift_letter_index(25, 1), 0);
    assert_eq!(shift_letter_index(3, 0), 3);
    assert_eq!(shift_letter_index(3, 52), 3);
    assert_eq!(shift_letter_index(3, -52), 3);
}

#[test]
fn test_caesar_shift_character() {
    assert_eq!(caesar_shift_character('a', 1), 'b');
    assert_eq!(caesar_shift_character('A', 1), 'B');
    assert_eq!(caesar_shift_character('x', 3), 'a');
    assert_eq!(caesar_shift_character('X', 3), 'A');
    assert_eq!(caesar_shift_character('1', 1), '1');
    assert_eq!(caesar_shift_character('&', 3), '&');
}

#[test]
fn test_caesar_cipher() {
    assert_eq!(caesar_cipher(0, "Hello, world!"), "Hello, world!");
    assert_eq!(caesar_cipher(1, "Hello, world!"), "Ifmmp, xpsme!");
    assert_eq!(caesar_cipher(-2, "Hello, world!"), "Fcjjm, umpjb!");
}

#[test]
fn test_scenarios() {
    assert_eq!(caesar_cipher(1, "Hello world"), "Ifmmp xpsme");
    assert_eq!(caesar_cipher(3, "xyz"), "abc");
    assert_eq!(caesar_cipher(-1, "abc"), "zab");
}

#[test]
fn test_identity() {
    assert_eq!(caesar_cipher(0, ""), "");
    assert_eq!(caesar_cipher(0, "abc XYZ 123 !?"), "abc XYZ 123 !?");
    assert_eq!(caesar_cipher(0, "naïve — héllo"), "naïve — héllo");
}

#[test]
fn test_periodicity() {
    let text = "The quick brown Fox, 42!";
    assert_eq!(caesar_cipher(1, text), caesar_cipher(27, text));
    assert_eq!(caesar_cipher(1, text), caesar_cipher(-25, text));
    assert_eq!(caesar_cipher(3, text), caesar_cipher(3 + 26 * 4, text));
    assert_eq!(caesar_cipher(3, text), caesar_cipher(3 - 26 * 9, text));
}

#[test]
fn test_length_preservation() {
    for shift in [-53isize, -1, 0, 1, 7, 26, 1000] {
        for text in ["", "a", "Hello, world!", "naïve — héllo", "123 !?"] {
            assert_eq!(caesar_cipher(shift, text).chars().count(), text.chars().count());
        }
    }
}

#[test]
fn test_case_preservation() {
    assert_eq!(caesar_cipher(1, "aZ"), "bA");
    let input = "Mixed CASE text";
    let output = caesar_cipher(9, &input);
    for (i, o) in input.chars().zip(output.chars()) {
        assert_eq!(i.is_ascii_lowercase(), o.is_ascii_lowercase());
        assert_eq!(i.is_ascii_uppercase(), o.is_ascii_uppercase());
    }
}

#[test]
fn test_pass_through() {
    assert_eq!(caesar_cipher(5, "123 \t!?,.;—é漢"), "123 \t!?,.;—é漢");
    let output = caesar_cipher(11, "a1b2-C3 é");
    let kept: Vec<char> = output.chars().collect();
    assert_eq!(kept[1], '1');
    assert_eq!(kept[3], '2');
    assert_eq!(kept[4], '-');
    assert_eq!(kept[6], '3');
    assert_eq!(kept[7], ' ');
    assert_eq!(kept[8], 'é');
}

#[test]
fn test_invertibility() {
    for shift in [-100isize, -26, -3, 0, 1, 13, 26, 77] {
        for text in ["", "Hello, world!", "aZ09 é", "xyzXYZ"] {
            assert_eq!(caesar_cipher(-shift, &caesar_cipher(shift, text)), text);
        }
    }
}

#[test]
fn test_extreme_shifts() {
    assert_eq!(caesar_cipher(isize::MAX, "a"), "h");
    assert_eq!(caesar_cipher(isize::MIN, "a"), "s");
    assert_eq!(caesar_shift_character('a', isize::MAX), 'h');
    assert_eq!(caesar_shift_character('A', isize::MIN), 'S');
}

#[test]
fn test_unicode_pass_through_mixed() {
    assert_eq!(caesar_cipher(1, "héllo"), "iémmp");
}
