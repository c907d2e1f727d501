//! The OpenTopography request for a bounding box.
use vstd::prelude::*;

verus! {

/// The URL of the OpenTopography USGS 10 m GeoTIFF request for the bounding
/// box whose edges are written as `west`, `east`, `north` and `south`.
pub open spec fn open_topo_request_url(
    west: Seq<char>,
    east: Seq<char>,
    north: Seq<char>,
    south: Seq<char>,
    api_key: Seq<char>,
) -> Seq<char> {
    "https://portal.opentopography.org/API/usgsdem?datasetName=USGS10m&south="@ + south
        + "&north="@ + north + "&west="@ + west + "&east="@ + east
        + "&outputFormat=GTiff&API_Key="@ + api_key
}

/// Builds the GET request for the USGS 10 m elevation model of a bounding
/// box; the coordinates come already written out in decimal.
pub fn build_open_topo_get_request(
    west_lon: &str,
    east_lon: &str,
    north_lat: &str,
    south_lat: &str,
    api_key: &str,
) -> (url: String)
    ensures
        url@ == open_topo_request_url(west_lon@, east_lon@, north_lat@, south_lat@, api_key@),
        url@ == "https://portal.opentopography.org/API/usgsdem?datasetName=USGS10m&south="@
            + south_lat@ + "&north="@ + north_lat@ + "&west="@ + west_lon@ + "&east="@ + east_lon@
            + "&outputFormat=GTiff&API_Key="@ + api_key@,
        url@.len() >= api_key@.len(),
        url@.subrange(url@.len() - api_key@.len(), url@.len() as int) == api_key@,
{
    let mut url = String::from_str(
        "https://portal.opentopography.org/API/usgsdem?datasetName=USGS10m&south=",
    );
    url.append(south_lat);
    url.append("&north=");
    url.append(north_lat);
    url.append("&west=");
    url.append(west_lon);
    url.append("&east=");
    url.append(east_lon);
    url.append("&outputFormat=GTiff&API_Key=");
    url.append(api_key);
    proof {
        lemma_request_ends_with_key(west_lon@, east_lon@, north_lat@, south_lat@, api_key@);
    }
    url
}

/// The request ends with `&API_Key=` and the whole key, and changing the key
/// changes nothing before it: the URL for a key is the URL for the empty key
/// followed by the key.
pub proof fn lemma_request_ends_with_key(
    west: Seq<char>,
    east: Seq<char>,
    north: Seq<char>,
    south: Seq<char>,
    api_key: Seq<char>,
)
    ensures
        open_topo_request_url(west, east, north, south, api_key) == open_topo_request_url(
            west,
            east,
            north,
            south,
            Seq::empty(),
        ) + api_key,
        open_topo_request_url(west, east, north, south, api_key).len() >= api_key.len(),
        ({
            let url = open_topo_request_url(west, east, north, south, api_key);
            url.subrange(url.len() - api_key.len(), url.len() as int) == api_key
        }),
        ({
            let url = open_topo_request_url(west, east, north, south, api_key);
            let marker = "&API_Key="@;
            url.subrange(url.len() - api_key.len() - marker.len(), url.len() - api_key.len())
                == marker
        }),
{
    reveal_strlit("&outputFormat=GTiff&API_Key=");
    reveal_strlit("&API_Key=");
    let base = open_topo_request_url(west, east, north, south, Seq::empty());
    let url = open_topo_request_url(west, east, north, south, api_key);
    assert(base + Seq::<char>::empty() =~= base);
    assert(url =~= base + api_key);
    assert(url.subrange(url.len() - api_key.len(), url.len() as int) =~= api_key);
    let marker = "&API_Key="@;
    assert(url.subrange(url.len() - api_key.len() - marker.len(), url.len() - api_key.len())
        =~= marker);
}

} // verus!
