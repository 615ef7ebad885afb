//! The background scheduling class.

use mdkb::cli::priority::{
    background_request, lower_to_background, BackgroundRequest, Platform, LOWEST_NICE,
};

/// What a kernel that grants every request reads back afterwards.
fn reading_after(request: BackgroundRequest) -> i32 {
    match request {
        BackgroundRequest::BackgroundState => 1,
        BackgroundRequest::Nice(value) => value,
    }
}

/// The drop is real and asking twice changes nothing.
///
/// Idempotence matters because the caller cannot know whether something
/// already lowered the process: a second call must not stack into something
/// the kernel refuses, or into something lower still.
#[test]
fn backgrounding_is_readable_afterwards_and_asking_twice_changes_nothing() {
    for platform in [Platform::MacOs, Platform::Unix] {
        let once = background_request(platform).expect("a class to ask for");
        let twice = background_request(platform).expect("a class to ask for");

        let first = lower_to_background(platform, reading_after(once));
        let second = lower_to_background(platform, reading_after(twice));

        assert!(first, "the process must be in the background class");
        assert_eq!(second, first, "a second call must be a no-op");
        assert_eq!(once, twice);
    }
}

#[test]
fn a_refused_request_is_no_background() {
    assert!(!lower_to_background(Platform::MacOs, 0));
    assert!(!lower_to_background(Platform::MacOs, -1));
    assert!(!lower_to_background(Platform::MacOs, 19));
    assert!(!lower_to_background(Platform::Unix, 0));
    assert!(!lower_to_background(Platform::Unix, 9));
    assert!(lower_to_background(Platform::Unix, 10));
    assert!(!lower_to_background(Platform::Other, LOWEST_NICE));
}

#[test]
fn each_platform_has_its_own_lever() {
    assert_eq!(
        background_request(Platform::MacOs),
        Some(BackgroundRequest::BackgroundState)
    );
    assert_eq!(background_request(Platform::Unix), Some(BackgroundRequest::Nice(19)));
    assert_eq!(background_request(Platform::Other), None);
}
