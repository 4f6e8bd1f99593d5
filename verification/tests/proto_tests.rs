use kanidm_proto::entry::{Entry, Modify, ModifyList};
use kanidm_proto::filter::Filter;
use kanidm_proto::proto::{
    CreateRequest, DeleteRequest, ModifyRequest, OperationResponse, ReviveRecycledRequest,
    SearchRecycledRequest, SearchRequest, SearchResponse, WhoamiRequest, WhoamiResponse,
};
use kanidm_proto::types::{Application, Claim, Group, UserAuthToken};

fn pres(a: &str) -> Filter {
    Filter::Pres(a.to_string())
}

#[test]
fn test_request_constructors_carry_payloads() {
    assert_eq!(SearchRequest::new(pres("class")).filter, pres("class"));
    assert_eq!(DeleteRequest::new(pres("mail")).filter, pres("mail"));
    assert_eq!(
        SearchRecycledRequest::new(pres("class")).filter,
        pres("class")
    );
    assert_eq!(
        ReviveRecycledRequest::new(pres("class")).filter,
        pres("class")
    );

    let ml = ModifyList::new_list(vec![Modify::Purged("mail".to_string())]);
    let mr = ModifyRequest::new(pres("class"), ml);
    assert_eq!(mr.filter, pres("class"));
    assert_eq!(mr.modlist.mods.len(), 1);
}

#[test]
fn test_entry_carriers() {
    let e = Entry { attrs: vec![] };
    let cr = CreateRequest::new(vec![e]);
    assert_eq!(cr.entries.len(), 1);

    let sr = SearchResponse::new(vec![Entry { attrs: vec![] }]);
    assert_eq!(sr.entries.len(), 1);
}

#[test]
fn test_whoami_pair() {
    assert_eq!(WhoamiRequest::new(), WhoamiRequest {});
    assert_eq!(OperationResponse::new(()), OperationResponse {});

    let tok = UserAuthToken {
        name: "alice".to_string(),
        displayname: "Alice".to_string(),
        uuid: "cc8e95b4-c24f-4d68-ba54-8bed76f63930".to_string(),
        application: None,
        groups: vec![],
        claims: vec![],
    };
    let resp = WhoamiResponse::new(Entry { attrs: vec![] }, tok);
    assert_eq!(resp.uat.name, "alice");
    assert_eq!(resp.youare, Entry { attrs: vec![] });
}

#[test]
fn test_token_with_memberships() {
    let tok = UserAuthToken {
        name: "alice".to_string(),
        displayname: "Alice".to_string(),
        uuid: "cc8e95b4-c24f-4d68-ba54-8bed76f63930".to_string(),
        application: Some(Application {
            name: "idm_portal".to_string(),
            uuid: "0c0f1bd9-5f43-4b60-bb27-ba6527e0fc23".to_string(),
        }),
        groups: vec![Group {
            name: "idm_admins".to_string(),
            uuid: "8a571a28-4a41-4194-9d0f-08ba6425b7b4".to_string(),
        }],
        claims: vec![Claim {
            name: "mfa".to_string(),
            uuid: "6091266a-e4c2-4c2c-9a2c-5db43dfd5b14".to_string(),
        }],
    };
    assert_eq!(tok.groups[0].name, "idm_admins");
    assert_eq!(tok.claims[0].name, "mfa");
    assert_eq!(tok.application.as_ref().unwrap().name, "idm_portal");
}
