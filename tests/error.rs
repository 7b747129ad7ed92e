use raytrace::bvh::BuildError;
use raytrace::error::{Error, Kind};

#[test]
fn new_error_has_no_explanation() {
    let e = Error::new(Kind::UnknownError);
    assert!(matches!(e.kind, Kind::UnknownError));
    assert!(e.explanation.is_none());
}

#[test]
fn explanation_is_kept() {
    let e = Error::new(Kind::UnknownError).explanation("while writing");
    assert_eq!(e.explanation.as_deref(), Some("while writing"));
}

#[test]
fn io_error_converts() {
    let e: Error = std::io::Error::new(std::io::ErrorKind::NotFound, "gone").into();
    assert!(matches!(e.kind, Kind::IOError(_)));
}

#[test]
fn build_error_converts() {
    let e: Error = BuildError::MissingBox(4).into();
    assert!(matches!(e.kind, Kind::InvalidScene(BuildError::MissingBox(4))));
}

#[test]
fn message_names_the_kind() {
    assert_eq!(Error::new(Kind::UnknownError).message(), "Unknown Error");
    assert_eq!(
        Error::new(Kind::UnknownError).explanation("Rendering: ").message(),
        "Rendering: Unknown Error"
    );
    assert_eq!(
        Error::from(BuildError::Empty).message(),
        "Invalid scene: it holds no primitive"
    );
    assert_eq!(
        Error::from(BuildError::MissingBox(2)).message(),
        "Invalid scene: a primitive has no bounding box"
    );
}

#[test]
fn io_message_carries_the_cause() {
    let e: Error = std::io::Error::new(std::io::ErrorKind::NotFound, "out.ppm").into();
    assert_eq!(e.message(), "IO Error, caused by: out.ppm");
}
