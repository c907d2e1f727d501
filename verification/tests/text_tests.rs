use avy_terrain::epsg::{epsg_utm_str, format_two_digit};
use avy_terrain::request::build_open_topo_get_request;

#[test]
fn request_for_mount_st_helens_box() {
    let (north, east, south, west) = (46.2168f64, -122.1595f64, 46.17836f64, -122.2144f64);
    let url = build_open_topo_get_request(
        &west.to_string(),
        &east.to_string(),
        &north.to_string(),
        &south.to_string(),
        "KEY123",
    );
    assert_eq!(
        url,
        "https://portal.opentopography.org/API/usgsdem?datasetName=USGS10m&south=46.17836&north=46.2168&west=-122.2144&east=-122.1595&outputFormat=GTiff&API_Key=KEY123"
    );
}

#[test]
fn request_keeps_each_coordinate_in_its_field() {
    let url = build_open_topo_get_request("W", "E", "N", "S", "");
    assert_eq!(
        url,
        "https://portal.opentopography.org/API/usgsdem?datasetName=USGS10m&south=S&north=N&west=W&east=E&outputFormat=GTiff&API_Key="
    );
}

#[test]
fn epsg_code_southern_series() {
    assert_eq!(epsg_utm_str(false, 10), "EPSG:32610");
    assert_eq!(epsg_utm_str(false, 60), "EPSG:32660");
}

#[test]
fn epsg_code_northern_series_pads_zone() {
    assert_eq!(epsg_utm_str(true, 5), "EPSG:32705");
    assert_eq!(epsg_utm_str(false, 0), "EPSG:32600");
}

#[test]
fn epsg_code_long_zone_is_not_cut() {
    assert_eq!(epsg_utm_str(false, 123), "EPSG:326123");
}

#[test]
fn two_digit_format_matches_std() {
    for z in [0i32, 7, 9, 10, 42, 99, 100, 4567, -1, -9, -10, -123, i32::MAX, i32::MIN] {
        assert_eq!(format_two_digit(z), format!("{:02}", z));
    }
}
