use psf_guard::grading::StatisticalRejection;
use psf_guard::models::GradingStatus;
use psf_guard::psf_fitting::PSFType;
use psf_guard::server::api::ApiResponse;
use psf_guard::server::handlers::AppError;
use psf_guard::nina_star_detection::{convert_16bpp_to_8bpp_nina, detect_structures};

#[test]
fn test_statistical_rejection_creation() {
    let rejection = StatisticalRejection {
        image_id: 123,
        reason: "Test Reason".to_string(),
        details: "Test Details".to_string(),
    };

    assert_eq!(rejection.image_id, 123);
    assert_eq!(rejection.reason, "Test Reason");
    assert_eq!(rejection.details, "Test Details");
}

#[test]
fn grading_status_names() {
    assert_eq!(GradingStatus::from_i32(0), "Pending");
    assert_eq!(GradingStatus::from_i32(1), "Accepted");
    assert_eq!(GradingStatus::from_i32(2), "Rejected");
    assert_eq!(GradingStatus::from_i32(3), "Unknown");
    assert_eq!(GradingStatus::from_i32(-1), "Unknown");
}

#[test]
fn api_response_envelopes() {
    let ok = ApiResponse::success(5u32);
    assert!(ok.success);
    assert_eq!(ok.data, Some(5));
    assert!(ok.error.is_none());
    let err: ApiResponse<u32> = ApiResponse::error("boom".to_string());
    assert!(!err.success);
    assert!(err.data.is_none());
    assert_eq!(err.error.as_deref(), Some("boom"));
}

#[test]
fn app_error_replies() {
    assert_eq!(AppError::NotFound.status_code(), 404);
    assert_eq!(AppError::NotFound.into_message(), "Resource not found");
    assert_eq!(AppError::DatabaseError.status_code(), 500);
    assert_eq!(AppError::DatabaseError.into_message(), "Database error");
    assert_eq!(AppError::BadRequest("bad".to_string()).status_code(), 400);
    assert_eq!(AppError::BadRequest("bad".to_string()).into_message(), "bad");
    assert_eq!(AppError::InternalError("oops".to_string()).status_code(), 500);
    assert_eq!(AppError::InternalError("oops".to_string()).into_message(), "oops");
    assert_eq!(AppError::NotImplemented.status_code(), 501);
    assert_eq!(AppError::NotImplemented.into_message(), "Not implemented yet");
}

#[test]
fn psf_type_names() {
    assert_eq!(PSFType::parse("none"), Ok(PSFType::NoFit));
    assert_eq!(PSFType::parse("Gaussian"), Ok(PSFType::Gaussian));
    assert_eq!(PSFType::parse("MOFFAT"), Ok(PSFType::Moffat4));
    assert_eq!(PSFType::parse("moffat4"), Ok(PSFType::Moffat4));
    assert_eq!(PSFType::parse("Moffat_4"), Ok(PSFType::Moffat4));
    assert_eq!(PSFType::parse("airy"), Err("Unknown PSF type: airy".to_string()));
    assert_eq!("gaussian".parse::<PSFType>(), Ok(PSFType::Gaussian));
    assert_eq!(PSFType::from_lowercase("moffat", "MoFfAt"), Ok(PSFType::Moffat4));
    assert_eq!(PSFType::from_lowercase("x", "X"), Err("Unknown PSF type: X".to_string()));
}

#[test]
fn nina_conversion_and_structures() {
    assert_eq!(convert_16bpp_to_8bpp_nina(&[0x0100, 0xfeff]), vec![1, 0xfe]);
    let image = vec![
        255, 255, 0, 0,
        0, 0, 0, 255,
    ];
    let blobs = detect_structures(&image, 4, 2);
    assert_eq!(blobs.len(), 2);
    assert_eq!(blobs[0].area, 2);
    assert_eq!(blobs[0].rectangle.x, 0);
    assert_eq!(blobs[0].rectangle.width, 2);
    assert_eq!(blobs[1].area, 1);
    assert_eq!(blobs[1].rectangle.x, 3);
    assert_eq!(blobs[1].rectangle.y, 1);
}
