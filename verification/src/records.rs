//! The record types carried on the activity stream and loaded into the
//! lookup tables.
//!
//! Dates are kept as plain integers: a creation date is a Unix timestamp in
//! seconds, a birthday a day number.  A comment's parent is either a post or
//! another comment, exactly one of the two; a record with neither reference is
//! malformed and is skipped by the resolver rather than aborting a worker.

use vstd::prelude::*;

verus! {

/// Topic of a message on the ingestion feed.
#[derive(Clone, Copy, Debug, PartialEq, Eq, Structural)]
pub enum Topic {
    Post,
    Comment,
    Like,
    EOS,
}

impl Topic {
    pub open spec fn name_spec(self) -> Seq<char> {
        match self {
            Topic::Post => "post"@,
            Topic::Comment => "comment"@,
            Topic::Like => "like"@,
            Topic::EOS => "eos"@,
        }
    }

    /// The topic string used on the wire.
    pub fn name(&self) -> (r: &'static str)
        ensures
            r@ == self.name_spec(),
    {
        match self {
            Topic::Post => "post",
            Topic::Comment => "comment",
            Topic::Like => "like",
            Topic::EOS => "eos",
        }
    }
}

/// A reference from a child event to its direct parent: a comment replies to
/// either a post or another comment.
#[derive(Clone, Copy, Debug, PartialEq, Eq, Structural)]
pub enum ParentId {
    Post(i32),
    Comment(i32),
}

/// A blacklist row naming a comment to filter out during bulk loading.
#[derive(Clone, Copy, Debug, PartialEq, Eq, Structural)]
pub struct CommentBlacklistRecord {
    pub comment_id: i32,
    pub reply_to_comment_id: i32,
    pub root_comment_id: i32,
}

impl From<CommentBlacklistRecord> for i32 {
    fn from(record: CommentBlacklistRecord) -> (r: i32) {
        record.comment_id
    }
}

impl vstd::std_specs::convert::FromSpecImpl<CommentBlacklistRecord> for i32 {
    open spec fn obeys_from_spec() -> bool {
        true
    }

    open spec fn from_spec(record: CommentBlacklistRecord) -> i32 {
        record.comment_id
    }
}

/// A post as carried on the stream.
#[derive(Clone, Debug)]
pub struct PostRecord {
    pub id: i32,
    pub person_id: i32,
    /// Unix timestamp, seconds.
    pub creation_date: i64,
    pub image_file: Option<String>,
    pub location_ip: String,
    pub browser_used: String,
    pub language: Option<String>,
    pub content: Option<String>,
    pub tags: Vec<i32>,
    pub forum_id: i32,
    pub place_id: i32,
}

/// A comment as carried on the stream.
#[derive(Clone, Debug)]
pub struct CommentRecord {
    pub id: i32,
    pub person_id: i32,
    /// Unix timestamp, seconds.
    pub creation_date: i64,
    pub location_ip: String,
    pub browser_used: String,
    pub content: String,
    pub reply_to_post_id: Option<i32>,
    pub reply_to_comment_id: Option<i32>,
    pub place_id: i32,
}

/// A like as carried on the stream; likes have no id of their own.
#[derive(Clone, Debug)]
pub struct LikeRecord {
    pub person_id: i32,
    pub post_id: i32,
    /// Unix timestamp, seconds.
    pub creation_date: i64,
}

impl CommentRecord {
    /// The direct parent reference, post reference first; `None` marks a
    /// malformed comment that carries neither reference.
    pub open spec fn parent_id_spec(self) -> Option<ParentId> {
        if self.reply_to_post_id is Some {
            Some(ParentId::Post(self.reply_to_post_id->0))
        } else if self.reply_to_comment_id is Some {
            Some(ParentId::Comment(self.reply_to_comment_id->0))
        } else {
            None
        }
    }

    pub fn parent_id(&self) -> (r: Option<ParentId>)
        ensures
            r == self.parent_id_spec(),
    {
        if let Some(id) = self.reply_to_post_id {
            Some(ParentId::Post(id))
        } else if let Some(id) = self.reply_to_comment_id {
            Some(ParentId::Comment(id))
        } else {
            None
        }
    }
}

/// An event of any of the three stream topics.
#[derive(Clone, Debug)]
pub enum StreamEvent {
    Post(PostRecord),
    Comment(CommentRecord),
    Like(LikeRecord),
}

impl StreamEvent {
    pub open spec fn id_spec(self) -> Option<i32> {
        match self {
            StreamEvent::Post(record) => Some(record.id),
            StreamEvent::Comment(record) => Some(record.id),
            StreamEvent::Like(_) => None,
        }
    }

    /// The id of the record, when it has one.
    pub fn id(&self) -> (r: Option<i32>)
        ensures
            r == self.id_spec(),
    {
        match self {
            StreamEvent::Post(record) => Some(record.id),
            StreamEvent::Comment(record) => Some(record.id),
            StreamEvent::Like(_) => None,
        }
    }

    pub open spec fn timestamp_spec(self) -> i64 {
        match self {
            StreamEvent::Post(record) => record.creation_date,
            StreamEvent::Comment(record) => record.creation_date,
            StreamEvent::Like(record) => record.creation_date,
        }
    }

    /// The event time of the record, seconds.
    pub fn timestamp(&self) -> (r: i64)
        ensures
            r == self.timestamp_spec(),
    {
        match self {
            StreamEvent::Post(record) => record.creation_date,
            StreamEvent::Comment(record) => record.creation_date,
            StreamEvent::Like(record) => record.creation_date,
        }
    }
}

impl From<PostRecord> for StreamEvent {
    fn from(record: PostRecord) -> (r: StreamEvent) {
        StreamEvent::Post(record)
    }
}

impl vstd::std_specs::convert::FromSpecImpl<PostRecord> for StreamEvent {
    open spec fn obeys_from_spec() -> bool {
        true
    }

    open spec fn from_spec(record: PostRecord) -> StreamEvent {
        StreamEvent::Post(record)
    }
}

impl From<CommentRecord> for StreamEvent {
    fn from(record: CommentRecord) -> (r: StreamEvent) {
        StreamEvent::Comment(record)
    }
}

impl vstd::std_specs::convert::FromSpecImpl<CommentRecord> for StreamEvent {
    open spec fn obeys_from_spec() -> bool {
        true
    }

    open spec fn from_spec(record: CommentRecord) -> StreamEvent {
        StreamEvent::Comment(record)
    }
}

impl From<LikeRecord> for StreamEvent {
    fn from(record: LikeRecord) -> (r: StreamEvent) {
        StreamEvent::Like(record)
    }
}

impl vstd::std_specs::convert::FromSpecImpl<LikeRecord> for StreamEvent {
    open spec fn obeys_from_spec() -> bool {
        true
    }

    open spec fn from_spec(record: LikeRecord) -> StreamEvent {
        StreamEvent::Like(record)
    }
}

/// A record that can be bulk-loaded from a named table file.
pub trait Record {
    /// Name of the file the records of this table are loaded from.
    fn filename() -> &'static str;
}

impl Record for PostRecord {
    fn filename() -> &'static str {
        "post_event_stream.csv"
    }
}

impl Record for CommentRecord {
    fn filename() -> &'static str {
        "comment_event_stream.csv"
    }
}

impl Record for LikeRecord {
    fn filename() -> &'static str {
        "likes_event_stream.csv"
    }
}

/// A forum.
#[derive(Clone, Debug)]
pub struct ForumRecord {
    pub id: i32,
    pub title: String,
    pub creation_date: i64,
}

#[derive(Clone, Copy, Debug, PartialEq, Eq, Structural)]
pub struct ForumHasMemberRecord {
    pub forum_id: i32,
    pub person_id: i32,
    pub join_date: i64,
}

#[derive(Clone, Copy, Debug, PartialEq, Eq, Structural)]
pub struct ForumHasModeratorRecord {
    pub forum_id: i32,
    pub person_id: i32,
}

#[derive(Clone, Copy, Debug, PartialEq, Eq, Structural)]
pub struct ForumHasTagRecord {
    pub forum_id: i32,
    pub tag_id: i32,
}

/// A person; the birthday is a day number.
#[derive(Clone, Debug)]
pub struct PersonRecord {
    pub id: i32,
    pub first_name: String,
    pub last_name: String,
    pub gender: String,
    pub birthday: i64,
    pub creation_date: i64,
    pub location_ip: String,
    pub browser_used: String,
}

#[derive(Clone, Debug)]
pub struct PersonEmailRecord {
    pub person_id: i32,
    pub email: String,
}

#[derive(Clone, Copy, Debug, PartialEq, Eq, Structural)]
pub struct PersonHasInterestRecord {
    pub person_id: i32,
    pub tag_id: i32,
}

#[derive(Clone, Copy, Debug, PartialEq, Eq, Structural)]
pub struct PersonIsLocatedInRecord {
    pub person_id: i32,
    pub place_id: i32,
}

#[derive(Clone, Copy, Debug, PartialEq, Eq, Structural)]
pub struct PersonKnowsRecord {
    pub person_id: i32,
    pub acquaintance_id: i32,
}

#[derive(Clone, Debug)]
pub struct PersonSpeaksRecord {
    pub person_id: i32,
    pub language: String,
}

#[derive(Clone, Copy, Debug, PartialEq, Eq, Structural)]
pub struct PersonStudyAtRecord {
    pub person_id: i32,
    pub organization_id: i32,
    pub class_year: i32,
}

#[derive(Clone, Copy, Debug, PartialEq, Eq, Structural)]
pub struct PersonWorkAtRecord {
    pub person_id: i32,
    pub organization_id: i32,
    pub work_from: i32,
}

#[derive(Clone, Debug)]
pub struct OrganizationRecord {
    pub id: i32,
    pub type_: String,
    pub name: String,
    pub url: String,
}

#[derive(Clone, Copy, Debug, PartialEq, Eq, Structural)]
pub struct OrganizationIsLocatedInRecord {
    pub organization_id: i32,
    pub place_id: i32,
}

#[derive(Clone, Debug)]
pub struct PlaceRecord {
    pub id: i32,
    pub name: String,
    pub url: String,
    pub type_: String,
}

#[derive(Clone, Copy, Debug, PartialEq, Eq, Structural)]
pub struct PlaceIsPartOfRecord {
    pub place_id: i32,
    pub parent_id: i32,
}

#[derive(Clone, Debug)]
pub struct TagRecord {
    pub id: i32,
    pub name: String,
    pub url: String,
}

#[derive(Clone, Copy, Debug, PartialEq, Eq, Structural)]
pub struct TagHasTypeRecord {
    pub tag_id: i32,
    pub tag_class_id: i32,
}

#[derive(Clone, Debug)]
pub struct TagClassRecord {
    pub id: i32,
    pub name: String,
    pub url: String,
}

#[derive(Clone, Copy, Debug, PartialEq, Eq, Structural)]
pub struct TagClassIsSubclassOfRecord {
    pub tag_class_id: i32,
    pub parent_id: i32,
}

impl Record for ForumRecord {
    fn filename() -> &'static str {
        "forum.csv"
    }
}

impl Record for ForumHasMemberRecord {
    fn filename() -> &'static str {
        "forum_hasMember_person.csv"
    }
}

impl Record for ForumHasModeratorRecord {
    fn filename() -> &'static str {
        "forum_hasModerator_person.csv"
    }
}

impl Record for ForumHasTagRecord {
    fn filename() -> &'static str {
        "forum_hasTag_tag.csv"
    }
}

impl Record for PersonRecord {
    fn filename() -> &'static str {
        "person.csv"
    }
}

impl Record for PersonEmailRecord {
    fn filename() -> &'static str {
        "person_email_emailaddress.csv"
    }
}

impl Record for PersonHasInterestRecord {
    fn filename() -> &'static str {
        "person_hasInterest_tag.csv"
    }
}

impl Record for PersonIsLocatedInRecord {
    fn filename() -> &'static str {
        "person_isLocatedIn_place.csv"
    }
}

impl Record for PersonKnowsRecord {
    fn filename() -> &'static str {
        "person_knows_person.csv"
    }
}

impl Record for PersonSpeaksRecord {
    fn filename() -> &'static str {
        "person_speaks_language.csv"
    }
}

impl Record for PersonStudyAtRecord {
    fn filename() -> &'static str {
        "person_studyAt_organisation.csv"
    }
}

impl Record for PersonWorkAtRecord {
    fn filename() -> &'static str {
        "person_workAt_organisation.csv"
    }
}

impl Record for OrganizationRecord {
    fn filename() -> &'static str {
        "organisation.csv"
    }
}

impl Record for OrganizationIsLocatedInRecord {
    fn filename() -> &'static str {
        "organisation_isLocatedIn_place.csv"
    }
}

impl Record for PlaceRecord {
    fn filename() -> &'static str {
        "place.csv"
    }
}

impl Record for PlaceIsPartOfRecord {
    fn filename() -> &'static str {
        "place_isPartOf_place.csv"
    }
}

impl Record for TagRecord {
    fn filename() -> &'static str {
        "tag.csv"
    }
}

impl Record for TagHasTypeRecord {
    fn filename() -> &'static str {
        "tag_hasType_tagclass.csv"
    }
}

impl Record for TagClassRecord {
    fn filename() -> &'static str {
        "tagclass.csv"
    }
}

impl Record for TagClassIsSubclassOfRecord {
    fn filename() -> &'static str {
        "tagclass_isSubclassOf_tagclass.csv"
    }
}

} // verus!
