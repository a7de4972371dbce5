//! The anchors: places of known position whose round-trip times are measured.

use crate::text::same;
use vstd::prelude::*;
use vstd::string::*;

verus! {

/// A place of known position. The coordinates are in ten-thousandths of a degree.
/// An anchor with an empty host cannot be probed, but traced routes may name it.
#[derive(Debug, Clone, Copy)]
pub struct Anchor {
    pub id: &'static str,
    pub host: &'static str,
    pub metro: &'static str,
    pub latitude_e4: i32,
    pub longitude_e4: i32,
}

/// The place that an `Anchor` stands for.
#[verifier::ext_equal]
pub struct AnchorView {
    pub id: Seq<char>,
    pub host: Seq<char>,
    pub metro: Seq<char>,
    pub latitude_e4: int,
    pub longitude_e4: int,
}

impl View for Anchor {
    type V = AnchorView;

    open spec fn view(&self) -> AnchorView {
        AnchorView {
            id: self.id@,
            host: self.host@,
            metro: self.metro@,
            latitude_e4: self.latitude_e4 as int,
            longitude_e4: self.longitude_e4 as int,
        }
    }
}

/// The places that a list of anchors stands for.
pub open spec fn anchor_views(anchors: Seq<Anchor>) -> Seq<AnchorView> {
    Seq::new(anchors.len(), |i: int| anchors[i]@)
}

/// The name of an anchor for people.
pub open spec fn anchor_label(anchor: AnchorView) -> Seq<char> {
    anchor.metro + " ("@ + anchor.id + ")"@
}

impl Anchor {
    /// The name of this anchor for people.
    pub fn label(&self) -> (name: String)
        ensures
            name@ == anchor_label(self@),
    {
        let mut name = self.metro.to_owned();
        name.append(" (");
        name.append(self.id);
        name.append(")");
        name
    }
}

/// One line of the list of anchors.
pub open spec fn listed(
    id: &str,
    host: &str,
    metro: &str,
    latitude_e4: int,
    longitude_e4: int,
) -> AnchorView {
    AnchorView { id: id@, host: host@, metro: metro@, latitude_e4, longitude_e4 }
}

/// The built-in anchors.
pub open spec fn anchor_list() -> Seq<AnchorView> {
    seq![
        listed("eu-central-1", "ec2.eu-central-1.amazonaws.com", "Frankfurt", 501109, 86821),
        listed("eu-south-1", "ec2.eu-south-1.amazonaws.com", "Milan", 454642, 91900),
        listed("eu-west-1", "ec2.eu-west-1.amazonaws.com", "Dublin", 533498, -62603),
        listed("eu-north-1", "ec2.eu-north-1.amazonaws.com", "Stockholm", 593293, 180686),
        listed("us-east-1", "ec2.us-east-1.amazonaws.com", "Ashburn", 390438, -774874),
        listed("ca-central-1", "ec2.ca-central-1.amazonaws.com", "Montreal", 455017, -735673),
        listed("us-west-2", "ec2.us-west-2.amazonaws.com", "Portland", 455152, -1226784),
        listed("ap-south-1", "ec2.ap-south-1.amazonaws.com", "Mumbai", 190760, 728777),
        listed("ap-southeast-1", "ec2.ap-southeast-1.amazonaws.com", "Singapore", 13521, 1038198),
        listed("ap-southeast-2", "ec2.ap-southeast-2.amazonaws.com", "Sydney", -338688, 1512093),
        listed("ap-east-1", "ec2.ap-east-1.amazonaws.com", "Hong Kong", 223193, 1141694),
        listed("ap-northeast-1", "ec2.ap-northeast-1.amazonaws.com", "Tokyo", 356762, 1396503),
        listed("sa-east-1", "ec2.sa-east-1.amazonaws.com", "Sao Paulo", -235505, -466333),
        listed("af-south-1", "ec2.af-south-1.amazonaws.com", "Cape Town", -339249, 184241),
        listed("eu-central-2", "ec2.eu-central-2.amazonaws.com", "Zurich", 473769, 85417),
        listed("eu-south-2", "ec2.eu-south-2.amazonaws.com", "Madrid", 404168, -37038),
        listed("eu-west-2", "ec2.eu-west-2.amazonaws.com", "London", 515072, -1276),
        listed("eu-west-3", "ec2.eu-west-3.amazonaws.com", "Paris", 488566, 23522),
        listed("ap-south-2", "ec2.ap-south-2.amazonaws.com", "Hyderabad", 173850, 784867),
        listed("ap-northeast-2", "ec2.ap-northeast-2.amazonaws.com", "Seoul", 375665, 1269780),
        listed("il-central-1", "ec2.il-central-1.amazonaws.com", "Tel Aviv", 320853, 347818),
        listed("me-central-1", "ec2.me-central-1.amazonaws.com", "Abu Dhabi", 244539, 543773),
        listed("mx-central-1", "ec2.mx-central-1.amazonaws.com", "Queretaro", 205888, -1003899),
        listed("munich-de-cix", "", "Munich", 481351, 115820),
        listed("at-vienna-1", "", "Vienna", 482082, 163738),
        listed("at-vienna-interxion-1", "", "Vienna", 482644, 164139),
        listed("at-graz-1", "", "Graz", 470707, 154395),
        listed("cz-prague-1", "", "Prague", 500755, 144378),
        listed("hu-budapest-1", "", "Budapest", 474979, 190402),
        listed("si-ljubljana-1", "", "Ljubljana", 460569, 145058),
        listed("hr-zagreb-1", "", "Zagreb", 458150, 159819),
    ]
}

/// The position of the first anchor of this id, or one behind the last.
pub open spec fn anchor_position(anchors: Seq<AnchorView>, id: Seq<char>) -> int
    decreases anchors.len(),
{
    if anchors.len() == 0 || anchors[0].id == id {
        0
    } else {
        1 + anchor_position(anchors.skip(1), id)
    }
}

/// The first anchor of this id.
pub open spec fn anchor_of(anchors: Seq<AnchorView>, id: Seq<char>) -> Option<AnchorView> {
    let at = anchor_position(anchors, id);
    if at < anchors.len() {
        Some(anchors[at])
    } else {
        None
    }
}

/// The built-in anchors.
pub fn builtin_anchors() -> (anchors: Vec<Anchor>)
    ensures
        anchor_views(anchors@) == anchor_list(),
{
    let anchors: Vec<Anchor> = vec![
        Anchor {
            id: "eu-central-1",
            host: "ec2.eu-central-1.amazonaws.com",
            metro: "Frankfurt",
            latitude_e4: 501109,
            longitude_e4: 86821,
        },
        Anchor {
            id: "eu-south-1",
            host: "ec2.eu-south-1.amazonaws.com",
            metro: "Milan",
            latitude_e4: 454642,
            longitude_e4: 91900,
        },
        Anchor {
            id: "eu-west-1",
            host: "ec2.eu-west-1.amazonaws.com",
            metro: "Dublin",
            latitude_e4: 533498,
            longitude_e4: -62603,
        },
        Anchor {
            id: "eu-north-1",
            host: "ec2.eu-north-1.amazonaws.com",
            metro: "Stockholm",
            latitude_e4: 593293,
            longitude_e4: 180686,
        },
        Anchor {
            id: "us-east-1",
            host: "ec2.us-east-1.amazonaws.com",
            metro: "Ashburn",
            latitude_e4: 390438,
            longitude_e4: -774874,
        },
        Anchor {
            id: "ca-central-1",
            host: "ec2.ca-central-1.amazonaws.com",
            metro: "Montreal",
            latitude_e4: 455017,
            longitude_e4: -735673,
        },
        Anchor {
            id: "us-west-2",
            host: "ec2.us-west-2.amazonaws.com",
            metro: "Portland",
            latitude_e4: 455152,
            longitude_e4: -1226784,
        },
        Anchor {
            id: "ap-south-1",
            host: "ec2.ap-south-1.amazonaws.com",
            metro: "Mumbai",
            latitude_e4: 190760,
            longitude_e4: 728777,
        },
        Anchor {
            id: "ap-southeast-1",
            host: "ec2.ap-southeast-1.amazonaws.com",
            metro: "Singapore",
            latitude_e4: 13521,
            longitude_e4: 1038198,
        },
        Anchor {
            id: "ap-southeast-2",
            host: "ec2.ap-southeast-2.amazonaws.com",
            metro: "Sydney",
            latitude_e4: -338688,
            longitude_e4: 1512093,
        },
        Anchor {
            id: "ap-east-1",
            host: "ec2.ap-east-1.amazonaws.com",
            metro: "Hong Kong",
            latitude_e4: 223193,
            longitude_e4: 1141694,
        },
        Anchor {
            id: "ap-northeast-1",
            host: "ec2.ap-northeast-1.amazonaws.com",
            metro: "Tokyo",
            latitude_e4: 356762,
            longitude_e4: 1396503,
        },
        Anchor {
            id: "sa-east-1",
            host: "ec2.sa-east-1.amazonaws.com",
            metro: "Sao Paulo",
            latitude_e4: -235505,
            longitude_e4: -466333,
        },
        Anchor {
            id: "af-south-1",
            host: "ec2.af-south-1.amazonaws.com",
            metro: "Cape Town",
            latitude_e4: -339249,
            longitude_e4: 184241,
        },
        Anchor {
            id: "eu-central-2",
            host: "ec2.eu-central-2.amazonaws.com",
            metro: "Zurich",
            latitude_e4: 473769,
            longitude_e4: 85417,
        },
        Anchor {
            id: "eu-south-2",
            host: "ec2.eu-south-2.amazonaws.com",
            metro: "Madrid",
            latitude_e4: 404168,
            longitude_e4: -37038,
        },
        Anchor {
            id: "eu-west-2",
            host: "ec2.eu-west-2.amazonaws.com",
            metro: "London",
            latitude_e4: 515072,
            longitude_e4: -1276,
        },
        Anchor {
            id: "eu-west-3",
            host: "ec2.eu-west-3.amazonaws.com",
            metro: "Paris",
            latitude_e4: 488566,
            longitude_e4: 23522,
        },
        Anchor {
            id: "ap-south-2",
            host: "ec2.ap-south-2.amazonaws.com",
            metro: "Hyderabad",
            latitude_e4: 173850,
            longitude_e4: 784867,
        },
        Anchor {
            id: "ap-northeast-2",
            host: "ec2.ap-northeast-2.amazonaws.com",
            metro: "Seoul",
            latitude_e4: 375665,
            longitude_e4: 1269780,
        },
        Anchor {
            id: "il-central-1",
            host: "ec2.il-central-1.amazonaws.com",
            metro: "Tel Aviv",
            latitude_e4: 320853,
            longitude_e4: 347818,
        },
        Anchor {
            id: "me-central-1",
            host: "ec2.me-central-1.amazonaws.com",
            metro: "Abu Dhabi",
            latitude_e4: 244539,
            longitude_e4: 543773,
        },
        Anchor {
            id: "mx-central-1",
            host: "ec2.mx-central-1.amazonaws.com",
            metro: "Queretaro",
            latitude_e4: 205888,
            longitude_e4: -1003899,
        },
        Anchor {
            id: "munich-de-cix",
            host: "",
            metro: "Munich",
            latitude_e4: 481351,
            longitude_e4: 115820,
        },
        Anchor {
            id: "at-vienna-1",
            host: "",
            metro: "Vienna",
            latitude_e4: 482082,
            longitude_e4: 163738,
        },
        Anchor {
            id: "at-vienna-interxion-1",
            host: "",
            metro: "Vienna",
            latitude_e4: 482644,
            longitude_e4: 164139,
        },
        Anchor {
            id: "at-graz-1",
            host: "",
            metro: "Graz",
            latitude_e4: 470707,
            longitude_e4: 154395,
        },
        Anchor {
            id: "cz-prague-1",
            host: "",
            metro: "Prague",
            latitude_e4: 500755,
            longitude_e4: 144378,
        },
        Anchor {
            id: "hu-budapest-1",
            host: "",
            metro: "Budapest",
            latitude_e4: 474979,
            longitude_e4: 190402,
        },
        Anchor {
            id: "si-ljubljana-1",
            host: "",
            metro: "Ljubljana",
            latitude_e4: 460569,
            longitude_e4: 145058,
        },
        Anchor {
            id: "hr-zagreb-1",
            host: "",
            metro: "Zagreb",
            latitude_e4: 458150,
            longitude_e4: 159819,
        },
    ];
    assert(anchor_views(anchors@) =~= anchor_list());
    anchors
}

/// The first of `anchors` with this id.
pub fn find_anchor(anchors: &Vec<Anchor>, id: &str) -> (found: Option<Anchor>)
    ensures
        match found {
            Some(anchor) => anchor_of(anchor_views(anchors@), id@) == Some(anchor@),
            None => anchor_of(anchor_views(anchors@), id@) is None,
        },
{
    let ghost all = anchor_views(anchors@);
    let mut i: usize = 0;
    assert(all.skip(0) =~= all);
    while i < anchors.len()
        invariant
            all == anchor_views(anchors@),
            i <= anchors@.len(),
            anchor_position(all, id@) == i + anchor_position(all.skip(i as int), id@),
        decreases anchors@.len() - i,
    {
        if same(anchors[i].id, id) {
            return Some(anchors[i]);
        }
        assert(all.skip(i as int).skip(1) =~= all.skip(i + 1));
        i = i + 1;
    }
    None
}

} // verus!
