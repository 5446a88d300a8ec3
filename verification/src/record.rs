use vstd::prelude::*;

verus! {

/// One row of the benchmark table: a user with a unique numeric id,
/// a display name and an email address.
pub struct Record {
    pub id: i32,
    pub name: String,
    pub email: String,
}

/// Mathematical image of a [`Record`]: the id as an unbounded integer and
/// the two strings as character sequences.
pub ghost struct RecordV {
    pub id: int,
    pub name: Seq<char>,
    pub email: Seq<char>,
}

impl View for Record {
    type V = RecordV;

    open spec fn view(&self) -> RecordV {
        RecordV { id: self.id as int, name: self.name@, email: self.email@ }
    }
}

impl DeepView for Record {
    type V = RecordV;

    open spec fn deep_view(&self) -> RecordV {
        self.view()
    }
}

impl Clone for Record {
    fn clone(&self) -> (r: Record)
        ensures
            r == *self,
    {
        Record { id: self.id, name: self.name.clone(), email: self.email.clone() }
    }
}

} // verus!
