use stream_zipper::input_helper::{Input, InputHandler};

fn input_of(len: usize) -> Vec<u8> {
    (0..len).map(|i| (i % 251) as u8).collect()
}

#[test]
fn nothing_kept_shows_the_input() {
    let input = input_of(200);
    let mut storage = Vec::new();
    let mut handler = InputHandler::take_storage(&mut storage, &input);
    assert_eq!(handler.orig_stored(), 0);
    assert!(!handler.is_stitched());
    assert_eq!(handler.get_unparsed(), Input::Long(&input[..]));
    assert_eq!(handler.current(), Input::Long(&input[..]));
    assert_eq!(handler.consumed(0), Input::Long(&input[..]));
    assert_eq!(handler.consumed(30), Input::Long(&input[30..]));
    assert_eq!(handler.consumed(0), Input::Long(&input[30..]));
    assert_eq!(handler.current(), Input::Long(&input[30..]));
    assert_eq!(handler.consumed(170), Input::Long(&[][..]));
    handler.return_storage(&mut storage);
    assert_eq!(storage, b"");
}

#[test]
fn what_is_kept_is_stitched_to_the_input() {
    let input = input_of(200);
    let mut storage = vec![0xaa, 0xbb, 0xcc];
    let mut handler = InputHandler::take_storage(&mut storage, &input);
    assert_eq!(storage, b"");
    assert_eq!(handler.orig_stored(), 3);
    assert!(handler.is_stitched());
    let mut stitched = vec![0xaa, 0xbb, 0xcc];
    stitched.extend_from_slice(&input[..80]);
    assert_eq!(handler.get_unparsed(), Input::Short(&stitched[..]));
    assert_eq!(handler.consumed(0), Input::Short(&stitched[..]));
    // The parser wants more: another 80 bytes are shown.
    assert_eq!(handler.extend_input(), 80);
    stitched.extend_from_slice(&input[80..160]);
    assert_eq!(handler.current(), Input::Short(&stitched[..]));
    // Then the 40 that are left, and then none.
    assert_eq!(handler.extend_input(), 40);
    assert_eq!(handler.extend_input(), 0);
    stitched.extend_from_slice(&input[160..]);
    assert_eq!(handler.current(), Input::Short(&stitched[..]));
    handler.return_storage(&mut storage);
    assert_eq!(storage, stitched);
}

#[test]
fn consuming_gets_past_what_was_kept() {
    let input = input_of(200);
    let mut storage = vec![0xaa, 0xbb, 0xcc];
    let mut handler = InputHandler::take_storage(&mut storage, &input);
    // 3 kept bytes and 47 of the input.
    assert_eq!(handler.consumed(50), Input::Long(&input[47..]));
    assert_eq!(handler.orig_stored(), 0);
    assert!(!handler.is_stitched());
    assert_eq!(handler.consumed(3), Input::Long(&input[50..]));
    handler.return_storage(&mut storage);
    assert_eq!(storage, b"");

    // All of what is shown: the kept bytes and the 80 that were copied.
    let mut storage = vec![0xaa, 0xbb, 0xcc];
    let mut handler = InputHandler::take_storage(&mut storage, &input);
    assert_eq!(handler.consumed(83), Input::Long(&input[80..]));

    // One more than was kept.
    let mut storage = vec![0xaa, 0xbb, 0xcc];
    let mut handler = InputHandler::take_storage(&mut storage, &input);
    assert_eq!(handler.consumed(4), Input::Long(&input[1..]));
}

#[test]
fn an_extension_of_the_input_itself_counts_what_it_copies() {
    let input = input_of(100);
    let mut storage = Vec::new();
    let mut handler = InputHandler::take_storage(&mut storage, &input);
    assert_eq!(handler.consumed(10), Input::Long(&input[10..]));
    // The parser was shown all of the input and wants more. What it was
    // shown is copied, 80 bytes at a time, until none is left.
    assert_eq!(handler.extend_input(), 80);
    assert!(handler.is_stitched());
    assert_eq!(handler.current(), Input::Short(&input[10..90]));
    assert_eq!(handler.extend_input(), 10);
    assert_eq!(handler.current(), Input::Short(&input[10..]));
    assert_eq!(handler.extend_input(), 0);
    assert_eq!(handler.current(), Input::Short(&input[10..]));
    handler.return_storage(&mut storage);
    assert_eq!(storage, &input[10..]);

    let mut storage = Vec::new();
    let mut handler = InputHandler::take_storage(&mut storage, &input[..5]);
    assert_eq!(handler.extend_input(), 5);
    assert_eq!(handler.extend_input(), 0);
    handler.return_storage(&mut storage);
    assert_eq!(storage, &input[..5]);
    // The next call goes on from there.
    let mut handler = InputHandler::take_storage(&mut storage, &input[5..]);
    assert_eq!(handler.orig_stored(), 5);
    assert_eq!(handler.current(), Input::Short(&input[..85]));
    assert_eq!(handler.consumed(30), Input::Long(&input[30..]));
}

#[test]
fn no_input_at_all() {
    let mut storage = vec![1, 2];
    let mut handler = InputHandler::take_storage(&mut storage, &[]);
    assert_eq!(handler.current(), Input::Short(&[1, 2][..]));
    assert_eq!(handler.extend_input(), 0);
    handler.return_storage(&mut storage);
    assert_eq!(storage, [1, 2]);
    let mut storage = Vec::new();
    let mut handler = InputHandler::take_storage(&mut storage, &[]);
    assert_eq!(handler.current(), Input::Long(&[][..]));
    assert_eq!(handler.extend_input(), 0);
    assert_eq!(handler.consumed(0), Input::Long(&[][..]));
}

#[test]
fn input_in_either_buffer() {
    let bytes = [1u8, 2, 3];
    assert_eq!(Input::Long(&bytes[..]).bytes(), &bytes);
    assert_eq!(Input::Short(&bytes[..]).bytes(), &bytes);
    assert_eq!(Input::Long(&bytes[..]).assert_take_long(), &bytes);
}
