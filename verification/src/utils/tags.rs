//! From the tags of a map feature to an attraction's category and the
//! opening hours, visit length and fee that stand for the category.

use vstd::prelude::*;
use crate::models::attraction::Category;

verus! {

/// The tags of a map feature that decide what kind of attraction it is.
#[derive(Debug, Clone)]
pub struct Tags {
    pub name: Option<String>,
    pub tourism: Option<String>,
    pub amenity: Option<String>,
    pub opening_hours: Option<String>,
}

/// The category of a feature tagged `tourism`.
pub open spec fn tourism_category(tourism: Seq<char>) -> Category {
    if tourism == "museum"@ || tourism == "gallery"@ {
        Category::Museum
    } else if tourism == "attraction"@ || tourism == "viewpoint"@ {
        Category::Landmark
    } else {
        Category::Entertainment
    }
}

/// The category of a feature tagged `amenity` and not tagged for tourism.
pub open spec fn amenity_category(amenity: Seq<char>) -> Category {
    if amenity == "restaurant"@ || amenity == "cafe"@ {
        Category::Restaurant
    } else {
        Category::Entertainment
    }
}

/// The category of a feature: by its tourism tag if it has one, else by its
/// amenity tag if it has one, else a landmark.
pub open spec fn category_of(tags: Tags) -> Category {
    match tags.tourism {
        Some(tourism) => tourism_category(tourism@),
        None => match tags.amenity {
            Some(amenity) => amenity_category(amenity@),
            None => Category::Landmark,
        },
    }
}

fn tag_is(tag: &String, word: &str) -> (same: bool)
    ensures
        same == (tag@ == word@),
{
    *tag == word.to_string()
}

pub fn determine_category(tags: &Tags) -> (category: Category)
    ensures
        category == category_of(*tags),
{
    if let Some(tourism) = &tags.tourism {
        if tag_is(tourism, "museum") || tag_is(tourism, "gallery") {
            Category::Museum
        } else if tag_is(tourism, "attraction") || tag_is(tourism, "viewpoint") {
            Category::Landmark
        } else {
            Category::Entertainment
        }
    } else if let Some(amenity) = &tags.amenity {
        if tag_is(amenity, "restaurant") || tag_is(amenity, "cafe") {
            Category::Restaurant
        } else {
            Category::Entertainment
        }
    } else {
        Category::Landmark
    }
}

/// The opening time, closing time, visit length and fee that stand for
/// `category`.
pub fn generate_params(category: &Category) -> (typical: (u32, u32, u32, u64))
    ensures
        typical == match *category {
            Category::Museum => (540u32, 1020u32, 90u32, 1000u64),
            Category::Restaurant => (660u32, 1320u32, 60u32, 1500u64),
            Category::Landmark => (360u32, 1080u32, 45u32, 500u64),
            Category::Park => (360u32, 1080u32, 90u32, 0u64),
            Category::Shopping => (600u32, 1260u32, 120u32, 2000u64),
            Category::Entertainment => (720u32, 1380u32, 120u32, 2500u64),
        },
{
    match category {
        Category::Museum => (540, 1020, 90, 1000),
        Category::Restaurant => (660, 1320, 60, 1500),
        Category::Landmark => (360, 1080, 45, 500),
        Category::Park => (360, 1080, 90, 0),
        Category::Shopping => (600, 1260, 120, 2000),
        Category::Entertainment => (720, 1380, 120, 2500),
    }
}

} // verus!
